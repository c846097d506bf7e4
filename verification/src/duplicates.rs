//! Finding files with the same contents.
//!
//! Files of the same size are candidates. Hard links to one file count as one
//! candidate. Candidates whose samples agree are compared by the digest of
//! their whole contents.
use vstd::prelude::*;
use std::collections::HashMap;

use crate::analytics;
use crate::analytics::{
    AnalysisIssue, DuplicateEntry, DuplicateGroup, EntryModel, FileRecord, IssueModel,
};
use crate::digest;
use crate::digest::Digest;
use crate::lists;
use crate::order;
use crate::path;
use crate::path::FilePath;
use crate::scanner::FileFacts;
use crate::sums;
use crate::text;
use crate::tree;
use crate::tree::FileIdentity;

verus! {

broadcast use vstd::std_specs::hash::group_hash_axioms;

pub const SAMPLE_SIZE: u64 = 65_536;

/// The contents of a list of lists.
pub open spec fn sets_of(sets: Seq<Vec<usize>>) -> Seq<Seq<usize>> {
    Seq::new(sets.len(), |i: int| sets[i]@)
}

/// Whether a list of places is ascending.
pub open spec fn rising(places: Seq<usize>) -> bool {
    forall|i: int, j: int|
        0 <= i < j < places.len() ==> #[trigger] places[i] < #[trigger] places[j]
}

/// Whether the sets are the classes of the places with equal codes: each place
/// with a code stands in one set, each set is ascending, and the sets come in
/// the order of their first places.
pub open spec fn is_partition(codes: Seq<Option<u64>>, sets: Seq<Seq<usize>>) -> bool {
    &&& forall|s: int|
        0 <= s < sets.len() ==> {
            &&& (#[trigger] sets[s]).len() > 0
            &&& rising(sets[s])
        }
    &&& forall|s: int, k: int|
        0 <= s < sets.len() && 0 <= k < sets[s].len() ==> {
            &&& (#[trigger] sets[s][k]) < codes.len()
            &&& codes[sets[s][k] as int] is Some
            &&& codes[sets[s][k] as int] == codes[sets[s][0] as int]
        }
    &&& forall|i: int|
        0 <= i < codes.len() && (#[trigger] codes[i]) is Some ==> exists|s: int|
            0 <= s < sets.len() && (#[trigger] sets[s]).contains(i as usize)
    &&& forall|s: int, t: int|
        0 <= s < t < sets.len() ==> {
            &&& (#[trigger] sets[s])[0] < (#[trigger] sets[t])[0]
            &&& codes[sets[s][0] as int] != codes[sets[t][0] as int]
        }
}

/// The first set with a code, or the number of sets.
pub open spec fn class_of(codes: Seq<Option<u64>>, sets: Seq<Seq<usize>>, code: u64) -> int
    decreases sets.len(),
{
    if sets.len() == 0 {
        0
    } else if codes[sets[0][0] as int] == Some(code) {
        0
    } else {
        1 + class_of(codes, sets.drop_first(), code)
    }
}

proof fn lemma_class_of(codes: Seq<Option<u64>>, sets: Seq<Seq<usize>>, code: u64)
    ensures
        0 <= class_of(codes, sets, code) <= sets.len(),
        class_of(codes, sets, code) < sets.len() ==> codes[sets[class_of(
            codes,
            sets,
            code,
        )][0] as int] == Some(code),
        forall|s: int|
            0 <= s < class_of(codes, sets, code) ==> codes[(#[trigger] sets[s])[0] as int] != Some(
                code,
            ),
    decreases sets.len(),
{
    if sets.len() > 0 && codes[sets[0][0] as int] != Some(code) {
        let rest = sets.drop_first();
        lemma_class_of(codes, rest, code);
        assert forall|s: int| 0 <= s < class_of(codes, sets, code) implies codes[(
        #[trigger] sets[s])[0] as int] != Some(code) by {
            if s > 0 {
                assert(sets[s] == rest[s - 1]);
            }
        }
    }
}

/// The classes of the places with equal codes.
pub open spec fn classes(codes: Seq<Option<u64>>) -> Seq<Seq<usize>>
    decreases codes.len(),
{
    if codes.len() == 0 {
        Seq::empty()
    } else {
        let sets = classes(codes.drop_last());
        let i = (codes.len() - 1) as usize;
        match codes.last() {
            None => sets,
            Some(code) => {
                let place = class_of(codes.drop_last(), sets, code);
                if place < sets.len() {
                    sets.update(place, sets[place].push(i))
                } else {
                    sets.push(seq![i])
                }
            },
        }
    }
}

/// The classes of the places with equal codes.
pub fn partition(codes: &Vec<Option<u64>>) -> (sets: Vec<Vec<usize>>)
    ensures
        sets_of(sets@) == classes(codes@),
        is_partition(codes@, sets_of(sets@)),
{
    let mut sets: Vec<Vec<usize>> = Vec::new();
    let mut known: HashMap<u64, usize> = HashMap::new();
    let mut i: usize = 0;
    while i < codes.len()
        invariant
            i <= codes@.len(),
            is_partition(codes@.take(i as int), sets_of(sets@)),
            sets_of(sets@) == classes(codes@.take(i as int)),
            forall|code: u64| #[trigger]
                known@.contains_key(code) ==> known@[code] < sets@.len() && codes@[sets@[known@[code] as int]@[0] as int]
                    == Some(code),
            forall|s: int|
                0 <= s < sets@.len() ==> (#[trigger] sets@[s])@.len() > 0 && codes@[sets@[s]@[0] as int] is Some
                    && known@.contains_key(codes@[sets@[s]@[0] as int]->0)
                    && known@[codes@[sets@[s]@[0] as int]->0] == s,
            forall|s: int, k: int|
                0 <= s < sets@.len() && 0 <= k < sets@[s]@.len() ==> (#[trigger] sets@[s]@[k]) < i,
        decreases codes@.len() - i,
    {
        let ghost part = codes@.take(i as int);
        let ghost more = codes@.take(i + 1);
        let ghost before = sets_of(sets@);
        let ghost old_sets = sets@;
        proof {
            assert(more =~= part.push(codes@[i as int]));
            assert(more.drop_last() =~= part);
            assert forall|s: int, k: int|
                0 <= s < before.len() && 0 <= k < before[s].len() implies part[(
            #[trigger] before[s][k]) as int] == codes@[before[s][k] as int] by {
                assert(old_sets[s]@[k] < i);
            }
        }
        match codes[i] {
            Some(code) => {
                let found: Option<usize> = match known.get(&code) {
                    Some(place) => Some(*place),
                    None => None,
                };
                match found {
                    Some(place) => {
                        let mut set: Vec<usize> = Vec::new();
                        core::mem::swap(&mut set, &mut sets[place]);
                        set.push(i);
                        sets[place] = set;
                        proof {
                            let after = sets_of(sets@);
                            assert(after =~= before.update(
                                place as int,
                                before[place as int].push(i),
                            ));
                            lemma_class_of(part, before, code);
                            let first = class_of(part, before, code);
                            assert(old_sets[place as int]@[0] < i);
                            if first < place {
                                assert(part[before[first][0] as int] != part[before[place as int][0] as int]);
                            } else if first > place {
                                assert(part[before[place as int][0] as int] != Some(code));
                            }
                            lemma_partition_grows(part, more, before, after, place as int, i);
                        }
                    },
                    None => {
                        let mut set: Vec<usize> = Vec::new();
                        set.push(i);
                        known.insert(code, sets.len());
                        sets.push(set);
                        proof {
                            let after = sets_of(sets@);
                            assert(set@ =~= seq![i]);
                            assert(after =~= before.push(seq![i]));
                            assert forall|s: int| 0 <= s < before.len() implies part[(
                            #[trigger] before[s])[0] as int] != Some(code) by {
                                assert(old_sets[s]@[0] < i);
                                assert(codes@[old_sets[s]@[0] as int] is Some);
                            }
                            lemma_class_of(part, before, code);
                            lemma_partition_starts(part, more, before, i);
                        }
                    },
                }
            },
            None => {
                proof {
                    lemma_partition_skips(part, more, before, i);
                }
            },
        }
        i += 1;
    }
    assert(codes@.take(i as int) =~= codes@);
    sets
}

proof fn lemma_partition_skips(
    part: Seq<Option<u64>>,
    more: Seq<Option<u64>>,
    sets: Seq<Seq<usize>>,
    i: usize,
)
    requires
        is_partition(part, sets),
        part.len() == i,
        more == part.push(None),
    ensures
        is_partition(more, sets),
{
    assert forall|s: int, k: int| 0 <= s < sets.len() && 0 <= k < sets[s].len() implies {
        &&& (#[trigger] sets[s][k]) < more.len()
        &&& more[sets[s][k] as int] is Some
        &&& more[sets[s][k] as int] == more[sets[s][0] as int]
    } by {
        assert(sets[s][0] < part.len());
    }
    assert forall|j: int| 0 <= j < more.len() && (#[trigger] more[j]) is Some implies exists|s: int|
        0 <= s < sets.len() && (#[trigger] sets[s]).contains(j as usize) by {
        assert(part[j] is Some);
    }
    assert forall|s: int, t: int| 0 <= s < t < sets.len() implies {
        &&& (#[trigger] sets[s])[0] < (#[trigger] sets[t])[0]
        &&& more[sets[s][0] as int] != more[sets[t][0] as int]
    } by {
        assert(sets[s][0] < part.len());
        assert(sets[t][0] < part.len());
    }
}

proof fn lemma_partition_starts(
    part: Seq<Option<u64>>,
    more: Seq<Option<u64>>,
    sets: Seq<Seq<usize>>,
    i: usize,
)
    requires
        is_partition(part, sets),
        part.len() == i,
        more.len() == i + 1,
        more.drop_last() == part,
        more.last() is Some,
        forall|s: int|
            0 <= s < sets.len() ==> part[(#[trigger] sets[s])[0] as int] != more.last(),
    ensures
        is_partition(more, sets.push(seq![i])),
{
    let after = sets.push(seq![i]);
    assert forall|j: int| 0 <= j < i implies part[j] == more[j] by {}
    assert forall|s: int, k: int| 0 <= s < after.len() && 0 <= k < after[s].len() implies {
        &&& (#[trigger] after[s][k]) < more.len()
        &&& more[after[s][k] as int] is Some
        &&& more[after[s][k] as int] == more[after[s][0] as int]
    } by {
        if s < sets.len() {
            assert(after[s] == sets[s]);
            assert(sets[s][k] < part.len());
            assert(sets[s][0] < part.len());
        }
    }
    assert forall|s: int| 0 <= s < after.len() implies {
        &&& (#[trigger] after[s]).len() > 0
        &&& rising(after[s])
    } by {
        if s < sets.len() {
            assert(after[s] == sets[s]);
        }
    }
    assert forall|j: int| 0 <= j < more.len() && (#[trigger] more[j]) is Some implies exists|s: int|
        0 <= s < after.len() && (#[trigger] after[s]).contains(j as usize) by {
        if j < i {
            assert(part[j] is Some);
            let s = choose|s: int| 0 <= s < sets.len() && (#[trigger] sets[s]).contains(j as usize);
            assert(after[s] == sets[s]);
        } else {
            assert(after[sets.len() as int][0] == i);
            assert(after[sets.len() as int].contains(i));
        }
    }
    assert forall|s: int, t: int| 0 <= s < t < after.len() implies {
        &&& (#[trigger] after[s])[0] < (#[trigger] after[t])[0]
        &&& more[after[s][0] as int] != more[after[t][0] as int]
    } by {
        assert(after[s] == sets[s]);
        assert(sets[s][0] < part.len());
        if t < sets.len() {
            assert(after[t] == sets[t]);
            assert(sets[t][0] < part.len());
        }
    }
}

proof fn lemma_partition_grows(
    part: Seq<Option<u64>>,
    more: Seq<Option<u64>>,
    sets: Seq<Seq<usize>>,
    after: Seq<Seq<usize>>,
    place: int,
    i: usize,
)
    requires
        is_partition(part, sets),
        part.len() == i,
        more.len() == i + 1,
        more.drop_last() == part,
        0 <= place < sets.len(),
        after == sets.update(place, sets[place].push(i)),
        more.last() is Some,
        part[sets[place][0] as int] == more.last(),
    ensures
        is_partition(more, after),
{
    assert forall|j: int| 0 <= j < i implies part[j] == more[j] by {}
    assert(sets[place].len() > 0);
    assert(sets[place][0] < part.len());
    assert forall|s: int| 0 <= s < after.len() implies (#[trigger] after[s])[0] == sets[s][0]
        && after[s].len() > 0 && sets[s][0] < part.len() by {
        assert(sets[s].len() > 0);
        assert(sets[s][0] < part.len());
    }
    assert forall|s: int, k: int| 0 <= s < after.len() && 0 <= k < after[s].len() implies {
        &&& (#[trigger] after[s][k]) < more.len()
        &&& more[after[s][k] as int] is Some
        &&& more[after[s][k] as int] == more[after[s][0] as int]
    } by {
        assert(after[s][0] == sets[s][0]);
        if k < sets[s].len() {
            assert(after[s][k] == sets[s][k]);
            assert(sets[s][k] < part.len());
        }
    }
    assert forall|s: int| 0 <= s < after.len() implies {
        &&& (#[trigger] after[s]).len() > 0
        &&& rising(after[s])
    } by {
        assert(rising(sets[s]));
        if s == place {
            assert forall|a: int, b: int| 0 <= a < b < after[s].len() implies #[trigger] after[s][a]
                < #[trigger] after[s][b] by {
                assert(sets[s][a] < part.len());
                if b < sets[s].len() {
                    assert(after[s][b] == sets[s][b]);
                    assert(after[s][a] == sets[s][a]);
                }
            }
        }
    }
    assert forall|j: int| 0 <= j < more.len() && (#[trigger] more[j]) is Some implies exists|s: int|
        0 <= s < after.len() && (#[trigger] after[s]).contains(j as usize) by {
        lists::lemma_push_contains(sets[place], i);
        if j < i {
            assert(part[j] is Some);
            let s = choose|s: int| 0 <= s < sets.len() && (#[trigger] sets[s]).contains(j as usize);
            assert(after[s].contains(j as usize));
        } else {
            assert(after[place].contains(i));
        }
    }
    assert forall|s: int, t: int| 0 <= s < t < after.len() implies {
        &&& (#[trigger] after[s])[0] < (#[trigger] after[t])[0]
        &&& more[after[s][0] as int] != more[after[t][0] as int]
    } by {
        assert(after[s][0] == sets[s][0]);
        assert(after[t][0] == sets[t][0]);
    }
}

/// Every place with a code stands in exactly one class, with the places of the
/// same code and no others.
pub proof fn classes_partition_the_places(codes: Seq<Option<u64>>)
    requires
        codes.len() <= usize::MAX,
    ensures
        is_partition(codes, classes(codes)),
    decreases codes.len(),
{
    if codes.len() > 0 {
        let part = codes.drop_last();
        classes_partition_the_places(part);
        let sets = classes(part);
        let i = (codes.len() - 1) as usize;
        match codes.last() {
            None => {
                assert(codes =~= part.push(None));
                lemma_partition_skips(part, codes, sets, i);
            },
            Some(code) => {
                lemma_class_of(part, sets, code);
                let place = class_of(part, sets, code);
                if place < sets.len() {
                    lemma_partition_grows(
                        part,
                        codes,
                        sets,
                        sets.update(place, sets[place].push(i)),
                        place,
                        i,
                    );
                } else {
                    lemma_partition_starts(part, codes, sets, i);
                }
            },
        }
    }
}

/// The codes of files by size; an empty file has none.
pub open spec fn size_codes(files: Seq<FileRecord>) -> Seq<Option<u64>> {
    Seq::new(
        files.len(),
        |i: int|
            if files[i].usage.logical > 0 {
                Some(files[i].usage.logical)
            } else {
                None
            },
    )
}

/// The number of files with a size.
pub open spec fn size_count(files: Seq<FileRecord>, size: u64) -> nat
    decreases files.len(),
{
    if files.len() == 0 {
        0
    } else {
        size_count(files.drop_last(), size) + if files.last().usage.logical == size {
            1nat
        } else {
            0nat
        }
    }
}

/// Whether a file is not empty and not the only one of its size.
pub open spec fn shares_size(files: Seq<FileRecord>) -> spec_fn(FileRecord) -> bool {
    |file: FileRecord| file.usage.logical > 0 && size_count(files, file.usage.logical) > 1
}

proof fn lemma_size_count_bound(files: Seq<FileRecord>, size: u64)
    ensures
        size_count(files, size) <= files.len(),
    decreases files.len(),
{
    if files.len() > 0 {
        lemma_size_count_bound(files.drop_last(), size);
    }
}

/// The number of files that have to be compared: those that are not empty and
/// not the only ones of their size.
pub fn duplicate_candidate_count(files: &Vec<FileRecord>) -> (count: usize)
    ensures
        count == files@.filter(shares_size(files@)).len(),
{
    let mut sizes: HashMap<u64, usize> = HashMap::new();
    let mut i: usize = 0;
    while i < files.len()
        invariant
            i <= files@.len(),
            forall|size: u64|
                size > 0 ==> (if #[trigger] sizes@.contains_key(size) {
                    sizes@[size] == size_count(files@.take(i as int), size)
                } else {
                    size_count(files@.take(i as int), size) == 0
                }),
        decreases files@.len() - i,
    {
        let size: u64 = files[i].usage.logical;
        proof {
            assert(files@.take(i + 1).drop_last() =~= files@.take(i as int));
            lemma_size_count_bound(files@.take(i as int), size);
        }
        if size > 0 {
            let count: usize = match sizes.get(&size) {
                Some(count) => *count,
                None => 0,
            };
            sizes.insert(size, count + 1);
        }
        i += 1;
    }
    assert(files@.take(i as int) =~= files@);
    let mut total: usize = 0;
    let mut k: usize = 0;
    proof {
        reveal(Seq::filter);
        assert(files@.take(0).filter(shares_size(files@)) =~= Seq::empty());
    }
    while k < files.len()
        invariant
            k <= files@.len(),
            total <= k,
            total == files@.take(k as int).filter(shares_size(files@)).len(),
            forall|size: u64|
                size > 0 ==> (if #[trigger] sizes@.contains_key(size) {
                    sizes@[size] == size_count(files@, size)
                } else {
                    size_count(files@, size) == 0
                }),
        decreases files@.len() - k,
    {
        proof {
            lists::lemma_filter_step(files@, shares_size(files@), k as int);
        }
        let size: u64 = files[k].usage.logical;
        if size > 0 {
            assert(sizes@.contains_key(size) || size_count(files@, size) == 0);
            if let Some(count) = sizes.get(&size) {
                if *count > 1 {
                    total += 1;
                }
            }
        }
        k += 1;
    }
    assert(files@.take(k as int) =~= files@);
    total
}

/// Whether two files are the same file under two names.
pub open spec fn linked_files(left: FileRecord, right: FileRecord) -> bool {
    left.identity.device == right.identity.device && left.identity.inode == right.identity.inode
}

/// The first of some files that is the same file as the one at place `k`.
pub open spec fn first_link(files: Seq<FileRecord>, places: Seq<usize>, k: int, from: int) -> int
    decreases k - from,
{
    if from >= k || linked_files(files[places[from] as int], files[places[k] as int]) {
        from
    } else {
        first_link(files, places, k, from + 1)
    }
}

/// The codes of files by what file they are.
pub open spec fn identity_codes(files: Seq<FileRecord>, places: Seq<usize>) -> Seq<Option<u64>> {
    Seq::new(places.len(), |k: int| Some(first_link(files, places, k, 0) as u64))
}

/// A file to be compared, with its other names.
#[derive(Debug)]
pub struct Candidate {
    pub place: usize,
    pub aliases: Vec<FilePath>,
}

pub struct CandidateModel {
    pub place: usize,
    pub aliases: Seq<FilePath>,
}

impl View for Candidate {
    type V = CandidateModel;

    open spec fn view(&self) -> CandidateModel {
        CandidateModel { place: self.place, aliases: self.aliases@ }
    }
}

/// The candidate for files that are one file: the first stands for all.
pub open spec fn candidate_of(
    files: Seq<FileRecord>,
    places: Seq<usize>,
    class: Seq<usize>,
) -> CandidateModel {
    CandidateModel {
        place: places[class[0] as int],
        aliases: Seq::new(
            (class.len() - 1) as nat,
            |k: int| files[places[class[k + 1] as int] as int].path,
        ),
    }
}

/// The candidates among some files: hard links to one file count once.
pub open spec fn candidates(files: Seq<FileRecord>, places: Seq<usize>) -> Seq<CandidateModel> {
    let sets = classes(identity_codes(files, places));
    Seq::new(sets.len(), |s: int| candidate_of(files, places, sets[s]))
}

pub open spec fn candidate_views(members: Seq<Candidate>) -> Seq<CandidateModel> {
    Seq::new(members.len(), |i: int| members[i]@)
}

fn link_code(files: &Vec<FileRecord>, places: &Vec<usize>, k: usize) -> (code: u64)
    requires
        k < places@.len(),
        order::within(places@, 0, files@.len() as int),
    ensures
        code == first_link(files@, places@, k as int, 0),
{
    let mine: FileIdentity = files[places[k]].identity;
    let mut from: usize = 0;
    while from < k
        invariant
            from <= k < places@.len(),
            order::within(places@, 0, files@.len() as int),
            mine == files@[places@[k as int] as int].identity,
            first_link(files@, places@, k as int, 0) == first_link(
                files@,
                places@,
                k as int,
                from as int,
            ),
        decreases k - from,
    {
        let other: FileIdentity = files[places[from]].identity;
        if other.device == mine.device && other.inode == mine.inode {
            return from as u64;
        }
        from += 1;
    }
    k as u64
}

/// The candidates among some files: hard links to one file count once.
pub fn collapse_links(files: &Vec<FileRecord>, places: &Vec<usize>) -> (members: Vec<Candidate>)
    requires
        order::within(places@, 0, files@.len() as int),
    ensures
        candidate_views(members@) == candidates(files@, places@),
{
    let mut codes: Vec<Option<u64>> = Vec::new();
    let mut k: usize = 0;
    while k < places.len()
        invariant
            k <= places@.len(),
            order::within(places@, 0, files@.len() as int),
            codes@ == identity_codes(files@, places@).take(k as int),
        decreases places@.len() - k,
    {
        codes.push(Some(link_code(files, places, k)));
        k += 1;
        assert(codes@ =~= identity_codes(files@, places@).take(k as int));
    }
    assert(codes@ =~= identity_codes(files@, places@));
    let sets = partition(&codes);
    let ghost all = classes(codes@);
    let mut members: Vec<Candidate> = Vec::new();
    let mut s: usize = 0;
    while s < sets.len()
        invariant
            s <= sets@.len(),
            members@.len() == s,
            order::within(places@, 0, files@.len() as int),
            codes@.len() == places@.len(),
            all == sets_of(sets@),
            is_partition(codes@, all),
            forall|i: int|
                0 <= i < s ==> (#[trigger] members@[i])@ == candidate_of(files@, places@, all[i]),
        decreases sets@.len() - s,
    {
        let set: &Vec<usize> = &sets[s];
        assert(set@ == all[s as int]);
        assert(all[s as int].len() > 0);
        let mut aliases: Vec<FilePath> = Vec::new();
        let mut k: usize = 1;
        while k < set.len()
            invariant
                1 <= k <= set@.len(),
                s < sets@.len(),
                order::within(places@, 0, files@.len() as int),
                codes@.len() == places@.len(),
                all == sets_of(sets@),
                is_partition(codes@, all),
                set@ == all[s as int],
                aliases@ == candidate_of(files@, places@, set@).aliases.take(k - 1),
            decreases set@.len() - k,
        {
            assert(all[s as int][k as int] < codes@.len());
            aliases.push(files[places[set[k]]].path.clone());
            k += 1;
            assert(aliases@ =~= candidate_of(files@, places@, set@).aliases.take(k - 1));
        }
        assert(aliases@ =~= candidate_of(files@, places@, set@).aliases);
        assert(all[s as int][0] < codes@.len());
        members.push(Candidate { place: places[set[0]], aliases });
        s += 1;
    }
    assert(candidate_views(members@) =~= candidates(files@, places@));
    members
}

/// Candidates of one size.
#[derive(Debug)]
pub struct CandidateSet {
    pub logical_size: u64,
    pub members: Vec<Candidate>,
}

pub struct CandidateSetModel {
    pub logical_size: u64,
    pub members: Seq<CandidateModel>,
}

impl View for CandidateSet {
    type V = CandidateSetModel;

    open spec fn view(&self) -> CandidateSetModel {
        CandidateSetModel {
            logical_size: self.logical_size,
            members: candidate_views(self.members@),
        }
    }
}

pub open spec fn set_views(sets: Seq<CandidateSet>) -> Seq<CandidateSetModel> {
    Seq::new(sets.len(), |i: int| sets[i]@)
}

/// Whether files of one size are at least two files.
pub open spec fn is_comparable(files: Seq<FileRecord>) -> spec_fn(Seq<usize>) -> bool {
    |places: Seq<usize>| candidates(files, places).len() >= 2
}

pub open spec fn candidate_set_of(files: Seq<FileRecord>, places: Seq<usize>) -> CandidateSetModel {
    CandidateSetModel {
        logical_size: files[places[0] as int].usage.logical,
        members: candidates(files, places),
    }
}

/// The sets of candidates: at least two files of one size, which is not zero.
pub open spec fn candidate_sets_of(files: Seq<FileRecord>) -> Seq<CandidateSetModel> {
    let sets = classes(size_codes(files)).filter(is_comparable(files));
    Seq::new(sets.len(), |i: int| candidate_set_of(files, sets[i]))
}

/// The sets of files that have to be compared.
pub fn candidate_sets(files: &Vec<FileRecord>) -> (result: Vec<CandidateSet>)
    ensures
        set_views(result@) == candidate_sets_of(files@),
        forall|s: int| 0 <= s < result@.len() ==> belongs_to(#[trigger] result@[s], files@),
{
    let mut codes: Vec<Option<u64>> = Vec::new();
    let mut i: usize = 0;
    while i < files.len()
        invariant
            i <= files@.len(),
            codes@ == size_codes(files@).take(i as int),
        decreases files@.len() - i,
    {
        let size: u64 = files[i].usage.logical;
        codes.push(
            if size > 0 {
                Some(size)
            } else {
                None
            },
        );
        i += 1;
        assert(codes@ =~= size_codes(files@).take(i as int));
    }
    assert(codes@ =~= size_codes(files@));
    let sets = partition(&codes);
    let ghost all = classes(codes@);
    let ghost keep = is_comparable(files@);
    let mut result: Vec<CandidateSet> = Vec::new();
    let mut s: usize = 0;
    proof {
        reveal(Seq::filter);
        assert(all.take(0).filter(keep) =~= Seq::empty());
    }
    while s < sets.len()
        invariant
            s <= sets@.len(),
            codes@.len() == files@.len(),
            all == sets_of(sets@),
            keep == is_comparable(files@),
            is_partition(codes@, all),
            result@.len() == all.take(s as int).filter(keep).len(),
            forall|i: int|
                0 <= i < result@.len() ==> (#[trigger] result@[i])@ == candidate_set_of(
                    files@,
                    all.take(s as int).filter(keep)[i],
                ),
        decreases sets@.len() - s,
    {
        let set: &Vec<usize> = &sets[s];
        assert(set@ == all[s as int]);
        proof {
            assert forall|k: int| 0 <= k < set@.len() implies 0 <= #[trigger] set@[k]
                < files@.len() by {
                assert(all[s as int][k] < codes@.len());
            }
            lists::lemma_filter_step(all, keep, s as int);
            assert(all[s as int].len() > 0);
        }
        let members = collapse_links(files, set);
        assert(candidates(files@, set@).len() == members@.len());
        if members.len() >= 2 {
            let logical_size: u64 = files[set[0]].usage.logical;
            result.push(CandidateSet { logical_size, members });
        }
        s += 1;
    }
    assert(all.take(s as int) =~= all);
    assert(set_views(result@) =~= candidate_sets_of(files@));
    proof {
        assert forall|i: int| 0 <= i < result@.len() implies belongs_to(
            #[trigger] result@[i],
            files@,
        ) by {
            candidates_are_different_files_of_one_size(files@, i);
            let stated = candidate_sets_of(files@)[i].members;
            assert(set_views(result@)[i] == result@[i]@);
            assert forall|m: int| 0 <= m < result@[i].members@.len() implies (
            #[trigger] result@[i].members@[m]).place < files@.len() by {
                assert(candidate_views(result@[i].members@)[m] == stated[m]);
            }
        }
    }
    result
}

/// The code of a place is the first place with a link to the same file.
proof fn lemma_first_link(files: Seq<FileRecord>, places: Seq<usize>, k: int, from: int)
    requires
        0 <= from <= k < places.len(),
    ensures
        from <= first_link(files, places, k, from) <= k,
        linked_files(
            files[places[first_link(files, places, k, from)] as int],
            files[places[k] as int],
        ),
        forall|j: int|
            from <= j < first_link(files, places, k, from) ==> !linked_files(
                files[#[trigger] places[j] as int],
                files[places[k] as int],
            ),
    decreases k - from,
{
    if from < k && !linked_files(files[places[from] as int], files[places[k] as int]) {
        lemma_first_link(files, places, k, from + 1);
    }
}

/// Two places have one code exactly if they are links to the same file.
proof fn lemma_identity_codes(files: Seq<FileRecord>, places: Seq<usize>, k: int, l: int)
    requires
        places.len() <= usize::MAX,
        0 <= k < places.len(),
        0 <= l < places.len(),
    ensures
        (identity_codes(files, places)[k] == identity_codes(files, places)[l]) <==> linked_files(
            files[places[k] as int],
            files[places[l] as int],
        ),
{
    lemma_first_link(files, places, k, 0);
    lemma_first_link(files, places, l, 0);
    let f = first_link(files, places, k, 0);
    let g = first_link(files, places, l, 0);
    if linked_files(files[places[k] as int], files[places[l] as int]) {
        if f < g {
            assert(!linked_files(files[places[f] as int], files[places[l] as int]));
        } else if g < f {
            assert(!linked_files(files[places[g] as int], files[places[k] as int]));
        }
    }
}

/// The files that are compared with each other are of one size, which is not
/// zero, and no two of them are links to the same file.
pub proof fn candidates_are_different_files_of_one_size(files: Seq<FileRecord>, i: int)
    requires
        files.len() <= usize::MAX,
        0 <= i < candidate_sets_of(files).len(),
    ensures
        candidate_sets_of(files)[i].logical_size > 0,
        candidate_sets_of(files)[i].members.len() >= 2,
        forall|m: int|
            0 <= m < candidate_sets_of(files)[i].members.len() ==> {
                let place = (#[trigger] candidate_sets_of(files)[i].members[m]).place;
                &&& place < files.len()
                &&& files[place as int].usage.logical == candidate_sets_of(files)[i].logical_size
            },
        forall|m: int, n: int|
            0 <= m < n < candidate_sets_of(files)[i].members.len() ==> !linked_files(
                files[(#[trigger] candidate_sets_of(files)[i].members[m]).place as int],
                files[(#[trigger] candidate_sets_of(files)[i].members[n]).place as int],
            ),
{
    let codes = size_codes(files);
    let all = classes(codes);
    let kept = all.filter(is_comparable(files));
    classes_partition_the_places(codes);
    let places = kept[i];
    assert(kept.contains(places));
    all.lemma_filter_contains_rev(is_comparable(files), places);
    all.lemma_filter_pred(is_comparable(files), i);
    let s = choose|s: int| 0 <= s < all.len() && all[s] == places;
    let size = files[places[0] as int].usage.logical;
    assert(codes[all[s][0] as int] is Some);
    let links = identity_codes(files, places);
    let sets = classes(links);
    lemma_rising_length(places, files.len());
    classes_partition_the_places(links);
    let members = candidates(files, places);
    assert forall|m: int| 0 <= m < members.len() implies {
        let place = (#[trigger] members[m]).place;
        &&& place < files.len()
        &&& files[place as int].usage.logical == size
    } by {
        let k = sets[m][0] as int;
        assert(sets[m][0] < links.len());
        assert(members[m].place == places[k]);
        assert(codes[all[s][k] as int] == codes[all[s][0] as int]);
        assert(all[s][k] < codes.len());
    }
    assert forall|m: int, n: int| 0 <= m < n < members.len() implies !linked_files(
        files[(#[trigger] members[m]).place as int],
        files[(#[trigger] members[n]).place as int],
    ) by {
        assert(sets[m][0] < links.len() && sets[n][0] < links.len());
        assert(links[sets[m][0] as int] != links[sets[n][0] as int]);
        lemma_identity_codes(files, places, sets[m][0] as int, sets[n][0] as int);
    }
}

/// An ascending list of places is not longer than what it lists.
proof fn lemma_rising_length(places: Seq<usize>, count: nat)
    requires
        rising(places),
        places_within(places, count),
    ensures
        places.len() <= count,
    decreases count,
{
    if places.len() > 0 {
        let rest = places.drop_last();
        assert forall|k: int| 0 <= k < rest.len() implies #[trigger] rest[k] < count - 1 by {
            assert(places[k] < places[places.len() - 1]);
            assert(places[places.len() - 1] < count);
        }
        assert(places[places.len() - 1] < count);
        assert(rising(rest)) by {
            assert forall|a: int, b: int| 0 <= a < b < rest.len() implies #[trigger] rest[a]
                < #[trigger] rest[b] by {
                assert(places[a] < places[b]);
            }
        }
        lemma_rising_length(rest, (count - 1) as nat);
    }
}

pub open spec fn places_within(places: Seq<usize>, count: nat) -> bool {
    forall|k: int| 0 <= k < places.len() ==> #[trigger] places[k] < count
}

/// Places with the same code stand in one class.
proof fn lemma_one_class(codes: Seq<Option<u64>>, first: usize, second: usize) -> (s: int)
    requires
        codes.len() <= usize::MAX,
        first < codes.len(),
        second < codes.len(),
        codes[first as int] is Some,
        codes[first as int] == codes[second as int],
    ensures
        0 <= s < classes(codes).len(),
        classes(codes)[s].contains(first),
        classes(codes)[s].contains(second),
{
    let all = classes(codes);
    classes_partition_the_places(codes);
    let s = choose|s: int| 0 <= s < all.len() && (#[trigger] all[s]).contains(first);
    let t = choose|t: int| 0 <= t < all.len() && (#[trigger] all[t]).contains(second);
    let k = choose|k: int| 0 <= k < all[s].len() && all[s][k] == first;
    let l = choose|l: int| 0 <= l < all[t].len() && all[t][l] == second;
    assert(codes[all[s][k] as int] == codes[all[s][0] as int]);
    assert(codes[all[t][l] as int] == codes[all[t][0] as int]);
    if s < t {
        assert(codes[all[s][0] as int] != codes[all[t][0] as int]);
    } else if t < s {
        assert(codes[all[t][0] as int] != codes[all[s][0] as int]);
    }
    s
}

/// Every place has a candidate that stands for it.
proof fn lemma_member_for(files: Seq<FileRecord>, places: Seq<usize>, k: int) -> (m: int)
    requires
        places.len() <= usize::MAX,
        0 <= k < places.len(),
    ensures
        0 <= m < candidates(files, places).len(),
        linked_files(
            files[candidates(files, places)[m].place as int],
            files[places[k] as int],
        ),
{
    let links = identity_codes(files, places);
    let sets = classes(links);
    classes_partition_the_places(links);
    assert(links[k] is Some);
    let m = choose|m: int| 0 <= m < sets.len() && (#[trigger] sets[m]).contains(k as usize);
    let a = choose|a: int| 0 <= a < sets[m].len() && sets[m][a] == k as usize;
    assert(links[sets[m][a] as int] == links[sets[m][0] as int]);
    assert(sets[m][0] < links.len());
    lemma_identity_codes(files, places, sets[m][0] as int, k);
    m
}

/// Whether a member of a set stands for a file, as that file or as another link
/// to it.
pub open spec fn stands_for(
    files: Seq<FileRecord>,
    set: CandidateSetModel,
    member: int,
    place: int,
) -> bool {
    0 <= member < set.members.len() && linked_files(
        files[set.members[member].place as int],
        files[place],
    )
}

/// No two files of the same size that is not zero are missed, unless they are
/// links to the same file: some set holds them both.
pub proof fn no_candidates_are_missed(files: Seq<FileRecord>, first: usize, second: usize)
    requires
        files.len() <= usize::MAX,
        first < files.len(),
        second < files.len(),
        files[first as int].usage.logical > 0,
        files[first as int].usage.logical == files[second as int].usage.logical,
        !linked_files(files[first as int], files[second as int]),
    ensures
        exists|i: int, m: int, n: int|
            0 <= i < candidate_sets_of(files).len() && #[trigger] stands_for(
                files,
                candidate_sets_of(files)[i],
                m,
                first as int,
            ) && #[trigger] stands_for(files, candidate_sets_of(files)[i], n, second as int),
{
    let codes = size_codes(files);
    let all = classes(codes);
    let keep = is_comparable(files);
    let s = lemma_one_class(codes, first, second);
    let places = all[s];
    assert(rising(places) && places_within(places, files.len())) by {
        classes_partition_the_places(codes);
        assert forall|j: int| 0 <= j < places.len() implies #[trigger] places[j] < files.len() by {
            assert(all[s][j] < codes.len());
        }
    }
    lemma_rising_length(places, files.len());
    let k = choose|k: int| 0 <= k < places.len() && places[k] == first;
    let l = choose|l: int| 0 <= l < places.len() && places[l] == second;
    let m = lemma_member_for(files, places, k);
    let n = lemma_member_for(files, places, l);
    assert(candidates(files, places).len() >= 2);
    all.lemma_filter_contains(keep, s);
    let kept = all.filter(keep);
    let i = choose|i: int| 0 <= i < kept.len() && kept[i] == all[s];
    assert(candidate_sets_of(files)[i] == candidate_set_of(files, places));
    assert(stands_for(files, candidate_sets_of(files)[i], m, first as int));
    assert(stands_for(files, candidate_sets_of(files)[i], n, second as int));
}

/// Which bytes of a file are its sample: those at its start and, in a file
/// longer than that, as many at its end.
#[derive(Clone, Copy, Debug, PartialEq, Eq, Structural)]
pub struct SamplePlan {
    pub head: u64,
    pub tail: u64,
}

/// What is sampled of a file of a length.
pub open spec fn sample_of(length: u64) -> SamplePlan {
    SamplePlan {
        head: if length < SAMPLE_SIZE {
            length
        } else {
            SAMPLE_SIZE
        },
        tail: if length > SAMPLE_SIZE {
            SAMPLE_SIZE
        } else {
            0
        },
    }
}

pub fn sample_plan(length: u64) -> (plan: SamplePlan)
    ensures
        plan == sample_of(length),
        plan.head == (if length < SAMPLE_SIZE {
            length
        } else {
            SAMPLE_SIZE
        }),
        plan.tail == (if length > SAMPLE_SIZE {
            SAMPLE_SIZE
        } else {
            0
        }),
{
    SamplePlan {
        head: if length < SAMPLE_SIZE {
            length
        } else {
            SAMPLE_SIZE
        },
        tail: if length > SAMPLE_SIZE {
            SAMPLE_SIZE
        } else {
            0
        },
    }
}

/// The digest of a sample.
pub fn sample_digest(head: &[u8], tail: &[u8]) -> (result: String)
    requires
        head@.len() + tail@.len() <= u64::MAX,
    ensures
        result@ == digest::blake3_hex(head@ + tail@),
        result@.len() == 64,
{
    let mut sample = Digest::new();
    let _ = sample.update(head);
    assert(sample@ =~= head@);
    let _ = sample.update(tail);
    sample.finish()
}

/// Whether a file is still the one in its record and may be read.
pub open spec fn is_readable(record: FileRecord, facts: FileFacts) -> bool {
    facts.file_type.is_file && is_unchanged(record, facts)
}

/// Whether a file is still the one in its record.
pub open spec fn is_unchanged(record: FileRecord, facts: FileFacts) -> bool {
    facts.identity == record.identity && facts.length == record.usage.logical
}

/// Whether the contents of a file may be read, as it is before.
pub fn may_hash(record: &FileRecord, facts: &FileFacts) -> (result: bool)
    ensures
        result == is_readable(*record, *facts),
{
    facts.file_type.is_file && facts.identity == record.identity && facts.length
        == record.usage.logical
}

/// Whether the digest of a file counts, as the file is afterwards.
pub fn hash_counts(record: &FileRecord, facts: &FileFacts) -> (result: bool)
    ensures
        result == is_unchanged(*record, *facts),
{
    facts.identity == record.identity && facts.length == record.usage.logical
}

/// What came of reading a file.
#[derive(Debug)]
pub enum HashOutcome {
    Digest(String),
    Changed,
    Failed(String),
}

/// The digest of a file that could be read.
pub open spec fn digest_of(outcome: HashOutcome) -> Option<Seq<char>> {
    match outcome {
        HashOutcome::Digest(digest) => Some(digest@),
        _ => None,
    }
}

pub open spec fn digests_of(outcomes: Seq<HashOutcome>) -> Seq<Option<Seq<char>>> {
    Seq::new(outcomes.len(), |i: int| digest_of(outcomes[i]))
}

/// The first place with the same digest as place `k`.
pub open spec fn first_digest(digests: Seq<Option<Seq<char>>>, k: int, from: int) -> int
    decreases k - from,
{
    if from >= k || digests[from] == digests[k] {
        from
    } else {
        first_digest(digests, k, from + 1)
    }
}

/// The codes of files by digest; one that could not be read has none.
pub open spec fn digest_codes(digests: Seq<Option<Seq<char>>>) -> Seq<Option<u64>> {
    Seq::new(
        digests.len(),
        |k: int|
            match digests[k] {
                Some(digest) => Some(first_digest(digests, k, 0) as u64),
                None => None,
            },
    )
}

/// Whether a set has more than one member.
pub open spec fn is_shared() -> spec_fn(Seq<usize>) -> bool {
    |set: Seq<usize>| set.len() > 1
}

/// The sets of at least two places with the same digest.
pub open spec fn same_digests(digests: Seq<Option<Seq<char>>>) -> Seq<Seq<usize>> {
    classes(digest_codes(digests)).filter(is_shared())
}

fn digest_code(outcomes: &Vec<HashOutcome>, k: usize) -> (code: Option<u64>)
    requires
        k < outcomes@.len(),
    ensures
        code == digest_codes(digests_of(outcomes@))[k as int],
{
    let ghost digests = digests_of(outcomes@);
    let mine: &String = match &outcomes[k] {
        HashOutcome::Digest(digest) => digest,
        _ => {
            return None;
        },
    };
    assert(digests[k as int] == Some(mine@));
    let mut from: usize = 0;
    while from < k
        invariant
            from <= k < outcomes@.len(),
            digests == digests_of(outcomes@),
            digests[k as int] == Some(mine@),
            first_digest(digests, k as int, 0) == first_digest(digests, k as int, from as int),
        decreases k - from,
    {
        assert(digests[from as int] == digest_of(outcomes@[from as int]));
        match &outcomes[from] {
            HashOutcome::Digest(digest) => {
                if text::same_text(digest.as_str(), mine.as_str()) {
                    return Some(from as u64);
                }
            },
            _ => {},
        }
        from += 1;
    }
    Some(k as u64)
}

/// The sets of at least two places with the same digest.
pub fn group_digests(outcomes: &Vec<HashOutcome>) -> (sets: Vec<Vec<usize>>)
    ensures
        sets_of(sets@) == same_digests(digests_of(outcomes@)),
        forall|s: int, k: int|
            0 <= s < sets@.len() && 0 <= k < sets@[s]@.len() ==> {
                &&& (#[trigger] sets@[s]@[k]) < outcomes@.len()
                &&& outcomes@[sets@[s]@[k] as int] is Digest
            },
        forall|s: int| 0 <= s < sets@.len() ==> (#[trigger] sets@[s])@.len() > 1,
{
    let ghost digests = digests_of(outcomes@);
    let mut codes: Vec<Option<u64>> = Vec::new();
    let mut k: usize = 0;
    while k < outcomes.len()
        invariant
            k <= outcomes@.len(),
            digests == digests_of(outcomes@),
            codes@ == digest_codes(digests).take(k as int),
        decreases outcomes@.len() - k,
    {
        codes.push(digest_code(outcomes, k));
        k += 1;
        assert(codes@ =~= digest_codes(digests).take(k as int));
    }
    assert(codes@ =~= digest_codes(digests));
    let all = partition(&codes);
    let ghost sets = sets_of(all@);
    let mut shared: Vec<Vec<usize>> = Vec::new();
    let mut s: usize = 0;
    proof {
        reveal(Seq::filter);
        assert(sets.take(0).filter(is_shared()) =~= Seq::empty());
        assert(sets_of(shared@) =~= Seq::empty());
    }
    while s < all.len()
        invariant
            s <= all@.len(),
            sets == sets_of(all@),
            is_partition(codes@, sets),
            digests == digests_of(outcomes@),
            codes@ == digest_codes(digests),
            sets_of(shared@) == sets.take(s as int).filter(is_shared()),
            forall|t: int, k: int|
                0 <= t < shared@.len() && 0 <= k < shared@[t]@.len() ==> {
                    &&& (#[trigger] shared@[t]@[k]) < outcomes@.len()
                    &&& outcomes@[shared@[t]@[k] as int] is Digest
                },
            forall|t: int| 0 <= t < shared@.len() ==> (#[trigger] shared@[t])@.len() > 1,
        decreases all@.len() - s,
    {
        proof {
            lists::lemma_filter_step(sets, is_shared(), s as int);
            assert(sets[s as int] == all@[s as int]@);
        }
        if all[s].len() > 1 {
            let ghost last = shared@;
            let mut copy: Vec<usize> = Vec::new();
            let mut k: usize = 0;
            while k < all[s].len()
                invariant
                    s < all@.len(),
                    k <= all@[s as int]@.len(),
                    copy@ == all@[s as int]@.take(k as int),
                decreases all@[s as int]@.len() - k,
            {
                copy.push(all[s][k]);
                k += 1;
                assert(copy@ =~= all@[s as int]@.take(k as int));
            }
            assert(copy@ =~= sets[s as int]);
            shared.push(copy);
            proof {
                assert(sets_of(shared@) =~= sets_of(last).push(copy@));
                assert forall|t: int, k: int|
                    0 <= t < shared@.len() && 0 <= k < shared@[t]@.len() implies {
                    &&& (#[trigger] shared@[t]@[k]) < outcomes@.len()
                    &&& outcomes@[shared@[t]@[k] as int] is Digest
                } by {
                    if t < last.len() {
                        assert(shared@[t] == last[t]);
                    } else {
                        assert(sets[s as int][k] < codes@.len());
                    }
                }
            }
        }
        s += 1;
    }
    assert(sets.take(s as int) =~= sets);
    shared
}

/// The issues with those of the files that could not be read.
pub open spec fn read_issues(
    issues: Seq<IssueModel>,
    paths: Seq<FilePath>,
    outcomes: Seq<HashOutcome>,
) -> Seq<IssueModel>
    decreases outcomes.len(),
{
    if outcomes.len() == 0 {
        issues
    } else {
        let rest = read_issues(issues, paths.drop_last(), outcomes.drop_last());
        match outcomes.last() {
            HashOutcome::Digest(_) => rest,
            HashOutcome::Failed(message) => analytics::with_issue_text(
                rest,
                paths.last(),
                message@,
            ),
            HashOutcome::Changed => analytics::with_issue_text(
                rest,
                paths.last(),
                "File changed while it was being hashed"@,
            ),
        }
    }
}

/// The paths of candidates.
pub open spec fn member_paths(files: Seq<FileRecord>, members: Seq<Candidate>, chosen: Seq<usize>) -> Seq<
    FilePath,
> {
    Seq::new(chosen.len(), |i: int| files[members[chosen[i] as int].place as int].path)
}

/// Notes the candidates that could not be read. The outcome at a place belongs
/// to the chosen member at that place.
pub fn note_unreadable(
    files: &Vec<FileRecord>,
    members: &Vec<Candidate>,
    chosen: &Vec<usize>,
    outcomes: &Vec<HashOutcome>,
    issues: &mut Vec<AnalysisIssue>,
)
    requires
        chosen@.len() == outcomes@.len(),
        order::within(chosen@, 0, members@.len() as int),
        forall|m: int| 0 <= m < members@.len() ==> (#[trigger] members@[m]).place < files@.len(),
    ensures
        analytics::issue_views(final(issues)@) == read_issues(
            analytics::issue_views(old(issues)@),
            member_paths(files@, members@, chosen@),
            outcomes@,
        ),
{
    let ghost paths = member_paths(files@, members@, chosen@);
    let ghost start = analytics::issue_views(issues@);
    let mut i: usize = 0;
    while i < outcomes.len()
        invariant
            i <= outcomes@.len() == chosen@.len(),
            order::within(chosen@, 0, members@.len() as int),
            forall|m: int|
                0 <= m < members@.len() ==> (#[trigger] members@[m]).place < files@.len(),
            paths == member_paths(files@, members@, chosen@),
            analytics::issue_views(issues@) == read_issues(
                start,
                paths.take(i as int),
                outcomes@.take(i as int),
            ),
        decreases outcomes@.len() - i,
    {
        let path: &FilePath = &files[members[chosen[i]].place].path;
        match &outcomes[i] {
            HashOutcome::Digest(_) => {},
            HashOutcome::Failed(message) => {
                analytics::push_issue(issues, path, message.clone());
            },
            HashOutcome::Changed => {
                let message = "File changed while it was being hashed".to_owned();
                analytics::push_issue(issues, path, message);
            },
        }
        proof {
            assert(paths.take(i + 1).drop_last() =~= paths.take(i as int));
            assert(outcomes@.take(i + 1).drop_last() =~= outcomes@.take(i as int));
        }
        i += 1;
    }
    assert(paths.take(i as int) =~= paths);
    assert(outcomes@.take(i as int) =~= outcomes@);
}

/// A duplicate for a candidate.
pub open spec fn entry_of(files: Seq<FileRecord>, member: Candidate) -> EntryModel {
    let file = files[member.place as int];
    EntryModel {
        path: file.path,
        usage: file.usage,
        identity: file.identity,
        hardlink_aliases: member.aliases@,
    }
}

pub open spec fn entries_of(
    files: Seq<FileRecord>,
    members: Seq<Candidate>,
    chosen: Seq<usize>,
) -> Seq<EntryModel> {
    Seq::new(chosen.len(), |i: int| entry_of(files, members[chosen[i] as int]))
}

/// The sort keys of duplicates by path.
pub open spec fn entry_keys(entries: Seq<EntryModel>) -> Seq<Seq<u64>> {
    Seq::new(entries.len(), |i: int| path::path_key(entries[i].path@))
}

/// The sum of allocated bytes.
pub open spec fn physical_sum(entries: Seq<EntryModel>) -> u64
    decreases entries.len(),
{
    if entries.len() == 0 {
        0
    } else {
        tree::saturated(physical_sum(entries.drop_last()) + entries.last().usage.physical)
    }
}

/// The group of some candidates with the same digest: its files come in the
/// order of their paths, and all but one of them could be given up.
pub open spec fn group_of(
    logical_size: u64,
    hash: Seq<char>,
    files: Seq<FileRecord>,
    members: Seq<Candidate>,
    chosen: Seq<usize>,
) -> analytics::GroupModel {
    let entries = entries_of(files, members, chosen);
    let sorted = order::sorted_by(entries, entry_keys(entries));
    analytics::GroupModel {
        hash,
        logical_size,
        reclaimable_logical: tree::saturated(logical_size * (chosen.len() - 1)),
        physical_total: physical_sum(sorted),
        files: sorted,
    }
}

/// The views of sorted items are the sorted views.
proof fn lemma_sorted_views(entries: Seq<DuplicateEntry>, keys: Seq<Seq<u64>>)
    requires
        entries.len() == keys.len() <= usize::MAX,
    ensures
        analytics::entry_views(order::sorted_by(entries, keys)) == order::sorted_by(
            analytics::entry_views(entries),
            keys,
        ),
{
    let order = order::stable_order_exists(keys);
    assert(analytics::entry_views(order::sorted_by(entries, keys)) =~= order::sorted_by(
        analytics::entry_views(entries),
        keys,
    ));
}

/// The group of some candidates with the same digest.
pub fn duplicate_group(
    logical_size: u64,
    hash: String,
    files: &Vec<FileRecord>,
    members: &Vec<Candidate>,
    chosen: &Vec<usize>,
) -> (group: DuplicateGroup)
    requires
        chosen@.len() > 0,
        order::within(chosen@, 0, members@.len() as int),
        forall|m: int| 0 <= m < members@.len() ==> (#[trigger] members@[m]).place < files@.len(),
    ensures
        group@ == group_of(logical_size, hash@, files@, members@, chosen@),
{
    let ghost model = entries_of(files@, members@, chosen@);
    let mut entries: Vec<DuplicateEntry> = Vec::new();
    let mut keys: Vec<Vec<u64>> = Vec::new();
    let mut i: usize = 0;
    while i < chosen.len()
        invariant
            i <= chosen@.len(),
            order::within(chosen@, 0, members@.len() as int),
            forall|m: int|
                0 <= m < members@.len() ==> (#[trigger] members@[m]).place < files@.len(),
            model == entries_of(files@, members@, chosen@),
            entries@.len() == i,
            keys@.len() == i,
            forall|k: int| 0 <= k < i ==> (#[trigger] entries@[k])@ == model[k],
            forall|k: int| 0 <= k < i ==> (#[trigger] keys@[k])@ == entry_keys(model)[k],
        decreases chosen@.len() - i,
    {
        let member: &Candidate = &members[chosen[i]];
        let file: &FileRecord = &files[member.place];
        keys.push(file.path.sort_key());
        entries.push(
            DuplicateEntry {
                path: file.path.clone(),
                usage: file.usage,
                identity: file.identity,
                hardlink_aliases: analytics::copy_paths(&member.aliases),
            },
        );
        i += 1;
    }
    let count: usize = entries.len();
    proof {
        assert(analytics::entry_views(entries@) =~= model);
        assert(order::contents(keys@) =~= entry_keys(model));
        lemma_sorted_views(entries@, order::contents(keys@));
    }
    let sorted = order::sort_by_keys(entries, &keys);
    let ghost shown = analytics::entry_views(sorted@);
    let mut physical_total: u64 = 0;
    let mut k: usize = 0;
    while k < sorted.len()
        invariant
            k <= sorted@.len(),
            shown == analytics::entry_views(sorted@),
            physical_total == physical_sum(shown.take(k as int)),
        decreases sorted@.len() - k,
    {
        assert(shown.take(k + 1).drop_last() =~= shown.take(k as int));
        physical_total = physical_total.saturating_add(sorted[k].usage.physical);
        k += 1;
    }
    assert(shown.take(k as int) =~= shown);
    let copies: u64 = (count - 1) as u64;
    let reclaimable_logical: u64 = match logical_size.checked_mul(copies) {
        Some(amount) => amount,
        None => u64::MAX,
    };
    DuplicateGroup { hash, logical_size, reclaimable_logical, physical_total, files: sorted }
}

/// The sort keys that put the largest gain first.
pub open spec fn gain_keys(groups: Seq<DuplicateGroup>) -> Seq<Seq<u64>> {
    Seq::new(groups.len(), |i: int| seq![(u64::MAX - groups[i].reclaimable_logical) as u64])
}

/// The groups, those with the largest gain first.
pub fn sort_groups(groups: Vec<DuplicateGroup>) -> (sorted: Vec<DuplicateGroup>)
    ensures
        sorted@ == order::sorted_by(groups@, gain_keys(groups@)),
{
    let mut keys: Vec<Vec<u64>> = Vec::new();
    let mut i: usize = 0;
    while i < groups.len()
        invariant
            i <= groups@.len(),
            keys@.len() == i,
            forall|k: int| 0 <= k < i ==> (#[trigger] keys@[k])@ == gain_keys(groups@)[k],
        decreases groups@.len() - i,
    {
        let mut key: Vec<u64> = Vec::new();
        key.push(u64::MAX - groups[i].reclaimable_logical);
        assert(key@ =~= gain_keys(groups@)[i as int]);
        keys.push(key);
        i += 1;
    }
    assert(order::contents(keys@) =~= gain_keys(groups@));
    order::sort_by_keys(groups, &keys)
}

/// What the search for duplicates has found so far.
#[derive(Debug)]
pub struct Findings {
    pub groups: Vec<DuplicateGroup>,
    pub issues: Vec<AnalysisIssue>,
}

#[verifier::ext_equal]
pub struct FindingsModel {
    pub groups: Seq<analytics::GroupModel>,
    pub issues: Seq<IssueModel>,
}

impl View for Findings {
    type V = FindingsModel;

    open spec fn view(&self) -> FindingsModel {
        FindingsModel {
            groups: analytics::group_views(self.groups@),
            issues: analytics::issue_views(self.issues@),
        }
    }
}

/// All places up to a number.
pub open spec fn all_places(count: nat) -> Seq<usize> {
    Seq::new(count, |i: int| i as usize)
}

/// The chosen members at some places.
pub open spec fn chosen_at(chosen: Seq<usize>, places: Seq<usize>) -> Seq<usize> {
    Seq::new(places.len(), |i: int| chosen[places[i] as int])
}

/// The group of the members whose outcomes stand at some places.
pub open spec fn found_group(
    files: Seq<FileRecord>,
    set: CandidateSet,
    chosen: Seq<usize>,
    digests: Seq<Option<Seq<char>>>,
    places: Seq<usize>,
) -> analytics::GroupModel {
    group_of(
        set.logical_size,
        digests[places[0] as int]->0,
        files,
        set.members@,
        chosen_at(chosen, places),
    )
}

/// The groups among chosen members of a set, by their digests.
pub open spec fn found_groups(
    files: Seq<FileRecord>,
    set: CandidateSet,
    chosen: Seq<usize>,
    digests: Seq<Option<Seq<char>>>,
) -> Seq<analytics::GroupModel> {
    let sets = same_digests(digests);
    Seq::new(sets.len(), |s: int| found_group(files, set, chosen, digests, sets[s]))
}

impl FindingsModel {
    /// The findings after the samples of all members of a set have been read.
    pub open spec fn sampled(
        self,
        files: Seq<FileRecord>,
        set: CandidateSet,
        outcomes: Seq<HashOutcome>,
    ) -> FindingsModel {
        FindingsModel {
            issues: read_issues(
                self.issues,
                member_paths(files, set.members@, all_places(set.members@.len())),
                outcomes,
            ),
            ..self
        }
    }

    /// The findings after the contents of chosen members of a set have been
    /// read.
    pub open spec fn hashed(
        self,
        files: Seq<FileRecord>,
        set: CandidateSet,
        chosen: Seq<usize>,
        outcomes: Seq<HashOutcome>,
    ) -> FindingsModel {
        FindingsModel {
            groups: self.groups + found_groups(files, set, chosen, digests_of(outcomes)),
            issues: read_issues(
                self.issues,
                member_paths(files, set.members@, chosen),
                outcomes,
            ),
        }
    }
}

/// Whether the members of a set stand for files of a list.
pub open spec fn belongs_to(set: CandidateSet, files: Seq<FileRecord>) -> bool {
    forall|m: int|
        0 <= m < set.members@.len() ==> (#[trigger] set.members@[m]).place < files.len()
}

fn choose_members(chosen: &Vec<usize>, places: &Vec<usize>, limit: usize) -> (members: Vec<usize>)
    requires
        order::within(chosen@, 0, limit as int),
        order::within(places@, 0, chosen@.len() as int),
    ensures
        members@ == chosen_at(chosen@, places@),
        order::within(members@, 0, limit as int),
{
    let mut members: Vec<usize> = Vec::new();
    let mut i: usize = 0;
    while i < places.len()
        invariant
            i <= places@.len(),
            order::within(chosen@, 0, limit as int),
            order::within(places@, 0, chosen@.len() as int),
            members@ == chosen_at(chosen@, places@).take(i as int),
            order::within(members@, 0, limit as int),
        decreases places@.len() - i,
    {
        members.push(chosen[places[i]]);
        assert(members@ =~= chosen_at(chosen@, places@).take(i + 1));
        i += 1;
    }
    assert(members@ =~= chosen_at(chosen@, places@));
    members
}

impl Findings {
    pub fn new() -> (findings: Self)
        ensures
            findings@ == (FindingsModel { groups: Seq::empty(), issues: Seq::empty() }),
    {
        let findings = Findings { groups: Vec::new(), issues: Vec::new() };
        assert(findings@.groups =~= Seq::empty());
        assert(findings@.issues =~= Seq::empty());
        findings
    }

    /// Takes in the samples of all members of a set. The result are the sets of
    /// members whose samples agree, which have to be read whole.
    pub fn take_samples(
        &mut self,
        files: &Vec<FileRecord>,
        set: &CandidateSet,
        outcomes: &Vec<HashOutcome>,
    ) -> (agreeing: Vec<Vec<usize>>)
        requires
            belongs_to(*set, files@),
            outcomes@.len() == set.members@.len(),
        ensures
            final(self)@ == old(self)@.sampled(files@, *set, outcomes@),
            sets_of(agreeing@) == same_digests(digests_of(outcomes@)),
            forall|s: int|
                0 <= s < agreeing@.len() ==> order::within(
                    (#[trigger] agreeing@[s])@,
                    0,
                    set.members@.len() as int,
                ) && agreeing@[s]@.len() > 1,
    {
        let places = analytics::every_place(set.members.len());
        assert(places@ =~= all_places(set.members@.len()));
        note_unreadable(files, &set.members, &places, outcomes, &mut self.issues);
        let agreeing = group_digests(outcomes);
        proof {
            assert forall|s: int| 0 <= s < agreeing@.len() implies order::within(
                (#[trigger] agreeing@[s])@,
                0,
                set.members@.len() as int,
            ) by {
                assert forall|k: int| 0 <= k < agreeing@[s]@.len() implies 0
                    <= #[trigger] agreeing@[s]@[k] < set.members@.len() by {
                    assert(agreeing@[s]@[k] < outcomes@.len());
                }
            }
        }
        agreeing
    }

    /// Takes in the digests of chosen members of a set.
    pub fn take_digests(
        &mut self,
        files: &Vec<FileRecord>,
        set: &CandidateSet,
        chosen: &Vec<usize>,
        outcomes: &Vec<HashOutcome>,
    )
        requires
            belongs_to(*set, files@),
            order::within(chosen@, 0, set.members@.len() as int),
            outcomes@.len() == chosen@.len(),
        ensures
            final(self)@ == old(self)@.hashed(files@, *set, chosen@, outcomes@),
    {
        let ghost before = self@;
        let ghost digests = digests_of(outcomes@);
        let ghost stated = found_groups(files@, *set, chosen@, digests);
        note_unreadable(files, &set.members, chosen, outcomes, &mut self.issues);
        let sets = group_digests(outcomes);
        let mut s: usize = 0;
        assert(analytics::group_views(self.groups@) =~= before.groups + stated.take(0));
        while s < sets.len()
            invariant
                s <= sets@.len(),
                belongs_to(*set, files@),
                order::within(chosen@, 0, set.members@.len() as int),
                outcomes@.len() == chosen@.len(),
                digests == digests_of(outcomes@),
                stated == found_groups(files@, *set, chosen@, digests),
                sets_of(sets@) == same_digests(digests),
                forall|t: int, k: int|
                    0 <= t < sets@.len() && 0 <= k < sets@[t]@.len() ==> {
                        &&& (#[trigger] sets@[t]@[k]) < outcomes@.len()
                        &&& outcomes@[sets@[t]@[k] as int] is Digest
                    },
                forall|t: int| 0 <= t < sets@.len() ==> (#[trigger] sets@[t])@.len() > 1,
                analytics::issue_views(self.issues@) == read_issues(
                    before.issues,
                    member_paths(files@, set.members@, chosen@),
                    outcomes@,
                ),
                analytics::group_views(self.groups@) == before.groups + stated.take(s as int),
            decreases sets@.len() - s,
        {
            let places: &Vec<usize> = &sets[s];
            assert(places@ == same_digests(digests)[s as int]) by {
                assert(sets_of(sets@)[s as int] == sets@[s as int]@);
            }
            assert(order::within(places@, 0, chosen@.len() as int)) by {
                assert forall|k: int| 0 <= k < places@.len() implies 0 <= #[trigger] places@[k]
                    < chosen@.len() by {
                    assert(sets@[s as int]@[k] < outcomes@.len());
                }
            }
            assert(sets@[s as int]@[0] < outcomes@.len());
            let members = choose_members(chosen, places, set.members.len());
            let hash: String = match &outcomes[places[0]] {
                HashOutcome::Digest(hash) => hash.clone(),
                _ => String::new(),
            };
            assert(digests[places@[0] as int] == Some(hash@));
            let ghost last = self.groups@;
            self.groups.push(
                duplicate_group(set.logical_size, hash, files, &set.members, &members),
            );
            proof {
                assert(stated.take(s + 1) =~= stated.take(s as int).push(stated[s as int]));
                assert(self.groups@[last.len() as int]@ == stated[s as int]);
                assert(analytics::group_views(self.groups@) =~= analytics::group_views(last).push(
                    stated[s as int],
                ));
                assert(analytics::group_views(self.groups@) =~= before.groups + stated.take(
                    s + 1,
                ));
            }
            s += 1;
        }
        assert(stated.take(s as int) =~= stated) by {
            assert(sets_of(sets@).len() == stated.len());
        }
    }

    /// The findings, the groups with the largest gain first.
    pub fn finish(self) -> (result: (Vec<DuplicateGroup>, Vec<AnalysisIssue>))
        ensures
            result.0@ == order::sorted_by(self.groups@, gain_keys(self.groups@)),
            result.1@ == self.issues@,
    {
        (sort_groups(self.groups), self.issues)
    }
}

/// The code of a place is the first place with the same digest.
proof fn lemma_first_digest(digests: Seq<Option<Seq<char>>>, k: int, from: int)
    requires
        0 <= from <= k < digests.len(),
    ensures
        from <= first_digest(digests, k, from) <= k,
        digests[first_digest(digests, k, from)] == digests[k],
        forall|j: int|
            from <= j < first_digest(digests, k, from) ==> #[trigger] digests[j] != digests[k],
    decreases k - from,
{
    if from < k && digests[from] != digests[k] {
        lemma_first_digest(digests, k, from + 1);
    }
}

/// Files end in one group exactly if their digests are known and the same.
pub proof fn equal_digests_end_in_one_group(
    digests: Seq<Option<Seq<char>>>,
    first: usize,
    second: usize,
)
    requires
        digests.len() <= usize::MAX,
        first < second < digests.len(),
    ensures
        (digests[first as int] is Some && digests[first as int] == digests[second as int]) <==> (
        exists|s: int|
            0 <= s < same_digests(digests).len() && (#[trigger] same_digests(digests)[s]).contains(
                first,
            ) && same_digests(digests)[s].contains(second)),
{
    let codes = digest_codes(digests);
    let sets = classes(codes);
    let shared = same_digests(digests);
    classes_partition_the_places(codes);
    lemma_first_digest(digests, first as int, 0);
    lemma_first_digest(digests, second as int, 0);
    let a = digests[first as int];
    let b = digests[second as int];
    if a is Some && a == b {
        let f = first_digest(digests, first as int, 0);
        let g = first_digest(digests, second as int, 0);
        assert(f == g) by {
            if f < g {
                assert(digests[f] != digests[second as int]);
            } else if g < f {
                assert(digests[g] != digests[first as int]);
            }
        }
        assert(codes[first as int] == codes[second as int]);
        assert(codes[first as int] is Some && codes[second as int] is Some);
        let s = choose|s: int| 0 <= s < sets.len() && (#[trigger] sets[s]).contains(first);
        let t = choose|t: int| 0 <= t < sets.len() && (#[trigger] sets[t]).contains(second);
        let i = choose|i: int| 0 <= i < sets[s].len() && sets[s][i] == first;
        let j = choose|j: int| 0 <= j < sets[t].len() && sets[t][j] == second;
        assert(codes[sets[s][i] as int] == codes[sets[s][0] as int]);
        assert(codes[sets[t][j] as int] == codes[sets[t][0] as int]);
        assert(s == t) by {
            if s < t {
                assert(codes[sets[s][0] as int] != codes[sets[t][0] as int]);
            } else if t < s {
                assert(codes[sets[t][0] as int] != codes[sets[s][0] as int]);
            }
        }
        assert(sets[s].len() > 1) by {
            assert(i != j);
        }
        sets.lemma_filter_contains(is_shared(), s);
        let u = choose|u: int| 0 <= u < shared.len() && shared[u] == sets[s];
        assert(shared[u].contains(first) && shared[u].contains(second));
    }
    if exists|s: int|
        0 <= s < shared.len() && (#[trigger] shared[s]).contains(first) && shared[s].contains(
            second,
        ) {
        let u = choose|u: int|
            0 <= u < shared.len() && (#[trigger] shared[u]).contains(first)
                && shared[u].contains(second);
        sets.lemma_filter_contains_rev(is_shared(), shared[u]);
        let s = choose|s: int| 0 <= s < sets.len() && sets[s] == shared[u];
        let i = choose|i: int| 0 <= i < sets[s].len() && sets[s][i] == first;
        let j = choose|j: int| 0 <= j < sets[s].len() && sets[s][j] == second;
        assert(codes[sets[s][i] as int] == codes[sets[s][0] as int]);
        assert(codes[sets[s][j] as int] == codes[sets[s][0] as int]);
        assert(codes[first as int] == codes[second as int]);
        assert(codes[first as int] is Some);
    }
}

/// All copies of a group but one could be given up: what a group could free is
/// the size of its files times their number less one, up to the largest number.
/// Its files take up together what each of them takes up.
pub proof fn all_copies_but_one_could_be_freed(
    logical_size: u64,
    hash: Seq<char>,
    files: Seq<FileRecord>,
    members: Seq<Candidate>,
    chosen: Seq<usize>,
)
    requires
        0 < chosen.len() <= usize::MAX,
    ensures
        ({
            let group = group_of(logical_size, hash, files, members, chosen);
            let gain = logical_size * (group.files.len() - 1);
            let space = sums::sum_of(
                |i: int| group.files[i].usage.physical as nat,
                group.files.len(),
            );
            &&& group.files.len() == chosen.len()
            &&& group.logical_size == logical_size
            &&& group.hash == hash
            &&& group.reclaimable_logical == if gain <= u64::MAX {
                gain
            } else {
                u64::MAX as int
            }
            &&& group.physical_total == if space <= u64::MAX {
                space as int
            } else {
                u64::MAX as int
            }
        }),
{
    let group = group_of(logical_size, hash, files, members, chosen);
    let entries = entries_of(files, members, chosen);
    order::sorting_keeps_the_items(entries, entry_keys(entries));
    lemma_physical_sum(group.files);
    assert(logical_size * (chosen.len() - 1) >= 0) by (nonlinear_arith)
        requires
            chosen.len() > 0,
    ;
}

proof fn lemma_physical_sum(entries: Seq<EntryModel>)
    ensures
        physical_sum(entries) == tree::saturated(
            sums::sum_of(|i: int| entries[i].usage.physical as nat, entries.len()) as int,
        ),
    decreases entries.len(),
{
    let f = |i: int| entries[i].usage.physical as nat;
    sums::lemma_sum_step(f, entries.len());
    if entries.len() > 0 {
        let rest = entries.drop_last();
        lemma_physical_sum(rest);
        sums::lemma_sum_same(|i: int| rest[i].usage.physical as nat, f, rest.len());
    }
}

/// One more copy adds its size to what a group could free. A single file frees
/// nothing.
pub proof fn one_more_copy_could_be_freed(
    logical_size: u64,
    hash: Seq<char>,
    files: Seq<FileRecord>,
    members: Seq<Candidate>,
    chosen: Seq<usize>,
    more: usize,
)
    requires
        chosen.len() > 0,
    ensures
        ({
            let old = group_of(logical_size, hash, files, members, chosen).reclaimable_logical;
            let new = group_of(
                logical_size,
                hash,
                files,
                members,
                chosen.push(more),
            ).reclaimable_logical;
            &&& new == if old + logical_size <= u64::MAX {
                old + logical_size
            } else {
                u64::MAX as int
            }
            &&& group_of(logical_size, hash, files, members, seq![more]).reclaimable_logical == 0
        }),
{
    let n = chosen.len();
    let next = chosen.push(more).len();
    let one = seq![more].len();
    assert(logical_size * (next - 1) == logical_size * (n - 1) + logical_size && logical_size * (n
        - 1) >= 0) by (nonlinear_arith)
        requires
            n > 0,
            next == n + 1,
    ;
    assert(logical_size * (one - 1) == 0) by (nonlinear_arith)
        requires
            one == 1,
    ;
}

/// The files of a group are the members that were chosen, with their paths, what
/// they take up and their other names, in the order of their paths.
pub proof fn groups_hold_the_chosen_files(
    logical_size: u64,
    hash: Seq<char>,
    files: Seq<FileRecord>,
    members: Seq<Candidate>,
    chosen: Seq<usize>,
    i: int,
    j: int,
)
    requires
        chosen.len() <= usize::MAX,
        0 <= i < j < chosen.len(),
    ensures
        ({
            let group = group_of(logical_size, hash, files, members, chosen);
            &&& order::key_le(
                path::path_key(group.files[i].path@),
                path::path_key(group.files[j].path@),
            )
            &&& exists|k: int|
                0 <= k < chosen.len() && {
                    let member = members[#[trigger] chosen[k] as int];
                    let file = files[member.place as int];
                    &&& group.files[i].path == file.path
                    &&& group.files[i].usage == file.usage
                    &&& group.files[i].identity == file.identity
                    &&& group.files[i].hardlink_aliases == member.aliases@
                }
        }),
{
    let entries = entries_of(files, members, chosen);
    let keys = entry_keys(entries);
    let order = order::stable_order_exists(keys);
    order::sorting_orders_the_items(entries, keys, i, j);
    let k = order[i] as int;
    assert(entries[k] == entry_of(files, members[chosen[k] as int]));
}

/// Only files that are not empty and have a file of their size beside them are
/// looked at.
pub proof fn only_files_of_one_size_can_be_duplicates(
    files: Seq<FileRecord>,
    first: int,
    second: int,
)
    requires
        0 <= first < second < files.len(),
    ensures
        shares_size(files)(files[first]) ==> files[first].usage.logical > 0,
        files[first].usage.logical == 0 ==> size_codes(files)[first] is None,
        files[first].usage.logical > 0 && files[first].usage.logical == files[second].usage.logical
            ==> size_codes(files)[first] == size_codes(files)[second] && shares_size(files)(
            files[first],
        ) && shares_size(files)(files[second]),
        files[first].usage.logical != files[second].usage.logical ==> size_codes(files)[first]
            != size_codes(files)[second] || size_codes(files)[first] is None,
{
    if files[first].usage.logical == files[second].usage.logical {
        lemma_two_of_one_size(files, first, second);
    }
}

proof fn lemma_two_of_one_size(files: Seq<FileRecord>, first: int, second: int)
    requires
        0 <= first < second < files.len(),
        files[first].usage.logical == files[second].usage.logical,
    ensures
        size_count(files, files[first].usage.logical) >= 2,
    decreases files.len(),
{
    let size = files[first].usage.logical;
    let rest = files.drop_last();
    if second < rest.len() {
        lemma_two_of_one_size(rest, first, second);
    } else {
        lemma_one_of_size(rest, first);
    }
}

proof fn lemma_one_of_size(files: Seq<FileRecord>, at: int)
    requires
        0 <= at < files.len(),
    ensures
        size_count(files, files[at].usage.logical) >= 1,
    decreases files.len(),
{
    if at < files.len() - 1 {
        lemma_one_of_size(files.drop_last(), at);
    }
}

/// Two names of one file on one device are one candidate, whatever else differs.
pub proof fn links_are_one_file(left: FileRecord, right: FileRecord)
    ensures
        linked_files(left, right) <==> left.identity.device == right.identity.device
            && left.identity.inode == right.identity.inode,
        linked_files(left, right) <==> linked_files(right, left),
{
}

/// The contents of a file count only if it is a regular file and has the
/// identity and the length that it had when it was indexed.
pub proof fn changed_files_are_not_compared(record: FileRecord, facts: FileFacts)
    ensures
        is_readable(record, facts) ==> facts.file_type.is_file && facts.length
            == record.usage.logical && facts.identity == record.identity,
        facts.length != record.usage.logical ==> !is_readable(record, facts) && !is_unchanged(
            record,
            facts,
        ),
        facts.identity != record.identity ==> !is_readable(record, facts) && !is_unchanged(
            record,
            facts,
        ),
        facts.length == record.usage.logical && facts.identity == record.identity ==> is_unchanged(
            record,
            facts,
        ),
{
}

/// Groups that could free more come first.
pub proof fn larger_gains_come_first(groups: Seq<DuplicateGroup>, i: int, j: int)
    requires
        groups.len() <= usize::MAX,
        0 <= i < j < groups.len(),
    ensures
        order::sorted_by(groups, gain_keys(groups))[i].reclaimable_logical >= order::sorted_by(
            groups,
            gain_keys(groups),
        )[j].reclaimable_logical,
{
    let keys = gain_keys(groups);
    let order = order::stable_order_exists(keys);
    order::sorting_orders_the_items(groups, keys, i, j);
    assert(order::key_le(keys[order[i] as int], keys[order[j] as int]));
}

/// Of a short file everything is sampled; of a file longer than 64 KiB that much
/// at its start and as much at its end.
pub proof fn samples_take_both_ends(length: u64)
    ensures
        length <= 65_536 ==> sample_of(length).head == length && sample_of(length).tail == 0,
        length > 65_536 ==> sample_of(length).head == 65_536 && sample_of(length).tail == 65_536,
        sample_of(length).head <= length,
        sample_of(length).tail <= length,
{
}

/// A file that could not be read or has changed is noted and cannot be in a
/// group; the others are not noted.
pub proof fn unread_files_are_noted(
    issues: Seq<IssueModel>,
    paths: Seq<FilePath>,
    outcomes: Seq<HashOutcome>,
    path: FilePath,
    outcome: HashOutcome,
)
    requires
        read_issues(issues, paths, outcomes).len() < 10_000,
    ensures
        ({
            let before = read_issues(issues, paths, outcomes);
            let after = read_issues(issues, paths.push(path), outcomes.push(outcome));
            &&& read_issues(issues, Seq::empty(), Seq::empty()) == issues
            &&& outcome is Digest ==> after == before
            &&& outcome is Failed ==> after == before.push(
                IssueModel { path, message: outcome->Failed_0@ },
            )
            &&& outcome is Changed ==> after == before.push(
                IssueModel { path, message: "File changed while it was being hashed"@ },
            )
            &&& digest_of(outcome) is Some <==> outcome is Digest
        }),
{
    assert(paths.push(path).drop_last() =~= paths);
    assert(outcomes.push(outcome).drop_last() =~= outcomes);
}

/// Hashing a set adds its groups behind those that were found before, and notes
/// what could not be read.
pub proof fn found_groups_come_after_the_others(
    findings: FindingsModel,
    files: Seq<FileRecord>,
    set: CandidateSet,
    chosen: Seq<usize>,
    outcomes: Seq<HashOutcome>,
)
    ensures
        ({
            let after = findings.hashed(files, set, chosen, outcomes);
            &&& after.groups.len() == findings.groups.len() + same_digests(
                digests_of(outcomes),
            ).len()
            &&& after.groups.take(findings.groups.len() as int) == findings.groups
            &&& forall|s: int|
                #![trigger same_digests(digests_of(outcomes))[s]]
                0 <= s < same_digests(digests_of(outcomes)).len() ==> after.groups[findings.groups.len()
                    + s].logical_size == set.logical_size
            &&& findings.sampled(files, set, outcomes).groups == findings.groups
        }),
{
    let after = findings.hashed(files, set, chosen, outcomes);
    assert(after.groups.take(findings.groups.len() as int) =~= findings.groups);
}

} // verus!
