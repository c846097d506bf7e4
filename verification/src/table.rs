//! Tables that are looked up by path.
//!
//! A table keeps its entries in the order in which they came. An index by hash
//! code finds an entry without looking at all of them.
use std::collections::HashMap;
use vstd::prelude::*;

use crate::lists;
use crate::path;
use crate::path::FilePath;

verus! {

broadcast use vstd::std_specs::hash::group_hash_axioms;

/// What a table is looked up by.
pub trait TableKey: Sized {
    /// Whether two keys stand for the same entry.
    spec fn same_as(self, other: Self) -> bool;

    /// The hash code of a key.
    spec fn code(self) -> u64;

    proof fn same_is_reflexive(key: Self)
        ensures
            key.same_as(key),
    ;

    proof fn same_is_symmetric(left: Self, right: Self)
        ensures
            left.same_as(right) == right.same_as(left),
    ;

    proof fn same_is_transitive(a: Self, b: Self, c: Self)
        requires
            a.same_as(b),
            b.same_as(c),
        ensures
            a.same_as(c),
    ;

    proof fn same_has_same_code(left: Self, right: Self)
        requires
            left.same_as(right),
        ensures
            left.code() == right.code(),
    ;

    fn is_same(&self, other: &Self) -> (result: bool)
        ensures
            result == self.same_as(*other),
    ;

    fn hash_code(&self) -> (code: u64)
        ensures
            code == self.code(),
    ;
}

pub const CODE_FACTOR: u128 = 1_099_511_628_211;

pub const CODE_RANGE: u128 = 2_305_843_009_213_693_951;

/// A hash code with one more number mixed in.
pub open spec fn mixed(code: u64, number: int) -> u64 {
    ((code * CODE_FACTOR + number) % CODE_RANGE as int) as u64
}

fn mix(code: u64, number: u16) -> (result: u64)
    ensures
        result == mixed(code, number as int),
{
    assert(code * CODE_FACTOR <= u64::MAX * CODE_FACTOR) by (nonlinear_arith)
        requires
            code <= u64::MAX,
    ;
    let product: u128 = code as u128 * CODE_FACTOR;
    ((product + number as u128) % CODE_RANGE) as u64
}

pub open spec fn bytes_code(start: u64, bytes: Seq<u8>) -> u64
    decreases bytes.len(),
{
    if bytes.len() == 0 {
        start
    } else {
        mixed(bytes_code(start, bytes.drop_last()), bytes.last() + 1)
    }
}

fn code_of_bytes(start: u64, bytes: &Vec<u8>) -> (code: u64)
    ensures
        code == bytes_code(start, bytes@),
{
    let mut code: u64 = start;
    let mut i: usize = 0;
    while i < bytes.len()
        invariant
            i <= bytes@.len(),
            code == bytes_code(start, bytes@.take(i as int)),
        decreases bytes@.len() - i,
    {
        assert(bytes@.take(i + 1).drop_last() =~= bytes@.take(i as int));
        code = mix(code, bytes[i] as u16 + 1);
        i += 1;
    }
    assert(bytes@.take(i as int) =~= bytes@);
    code
}

pub open spec fn components_code(all: Seq<Seq<u8>>) -> u64
    decreases all.len(),
{
    if all.len() == 0 {
        0
    } else {
        mixed(bytes_code(components_code(all.drop_last()), all.last()), 0)
    }
}

/// A path as a key: spellings of the same path are the same key.
#[derive(Debug)]
pub struct PathKey {
    pub path: FilePath,
}

impl TableKey for PathKey {
    open spec fn same_as(self, other: Self) -> bool {
        path::same_path(self.path@, other.path@)
    }

    open spec fn code(self) -> u64 {
        components_code(path::components(self.path@))
    }

    proof fn same_is_reflexive(key: Self) {
    }

    proof fn same_is_symmetric(left: Self, right: Self) {
    }

    proof fn same_is_transitive(a: Self, b: Self, c: Self) {
    }

    proof fn same_has_same_code(left: Self, right: Self) {
    }

    fn is_same(&self, other: &Self) -> (result: bool) {
        self.path.same(&other.path)
    }

    fn hash_code(&self) -> (code: u64) {
        let list = self.path.component_list();
        let ghost all = path::components(self.path@);
        let mut code: u64 = 0;
        let mut i: usize = 0;
        while i < list.len()
            invariant
                i <= list@.len(),
                list@.len() == all.len(),
                forall|k: int| 0 <= k < list@.len() ==> (#[trigger] list@[k])@ == all[k],
                code == components_code(all.take(i as int)),
            decreases list@.len() - i,
        {
            assert(all.take(i + 1).drop_last() =~= all.take(i as int));
            code = mix(code_of_bytes(code, &list[i]), 0);
            i += 1;
        }
        assert(all.take(i as int) =~= all);
        code
    }
}

/// A path as a key by its bytes alone.
#[derive(Debug)]
pub struct RawKey {
    pub path: FilePath,
}

impl TableKey for RawKey {
    open spec fn same_as(self, other: Self) -> bool {
        self.path@ == other.path@
    }

    open spec fn code(self) -> u64 {
        bytes_code(0, self.path@)
    }

    proof fn same_is_reflexive(key: Self) {
    }

    proof fn same_is_symmetric(left: Self, right: Self) {
    }

    proof fn same_is_transitive(a: Self, b: Self, c: Self) {
    }

    proof fn same_has_same_code(left: Self, right: Self) {
    }

    fn is_same(&self, other: &Self) -> (result: bool) {
        path::same_bytes(self.path.as_bytes().as_slice(), other.path.as_bytes().as_slice())
    }

    fn hash_code(&self) -> (code: u64) {
        code_of_bytes(0, self.path.as_bytes())
    }
}

/// A table of values by key, in the order in which they came.
#[verifier::reject_recursive_types(K)]
#[verifier::reject_recursive_types(V)]
#[derive(Debug)]
pub struct Table<K: TableKey, V> {
    pub entries: Vec<(K, V)>,
    pub places: HashMap<u64, Vec<usize>>,
}

/// Whether no two entries of a list have the same key.
pub open spec fn distinct_keys<K: TableKey, V>(entries: Seq<(K, V)>) -> bool {
    forall|i: int, j: int|
        0 <= i < j < entries.len() ==> !(#[trigger] entries[i]).0.same_as((#[trigger] entries[j]).0)
}

/// The place of the entry with a key, or the number of entries.
pub open spec fn place_of<K: TableKey, V>(entries: Seq<(K, V)>, key: K) -> int
    decreases entries.len(),
{
    if entries.len() == 0 {
        0
    } else if place_of(entries.drop_last(), key) < entries.len() - 1 {
        place_of(entries.drop_last(), key)
    } else if entries.last().0.same_as(key) {
        entries.len() - 1
    } else {
        entries.len() as int
    }
}

/// The first entry with a key is the one that is found.
pub proof fn lemma_place_of<K: TableKey, V>(entries: Seq<(K, V)>, key: K)
    ensures
        0 <= place_of(entries, key) <= entries.len(),
        place_of(entries, key) < entries.len() ==> entries[place_of(entries, key)].0.same_as(key),
        forall|i: int|
            0 <= i < place_of(entries, key) ==> !(#[trigger] entries[i]).0.same_as(key),
    decreases entries.len(),
{
    if entries.len() > 0 {
        let rest = entries.drop_last();
        lemma_place_of(rest, key);
        assert forall|i: int| 0 <= i < place_of(entries, key) implies !(
        #[trigger] entries[i]).0.same_as(key) by {
            if i < rest.len() {
                assert(rest[i] == entries[i]);
            }
        }
    }
}

/// Whether the table has an entry with a key.
pub open spec fn has_key<K: TableKey, V>(entries: Seq<(K, V)>, key: K) -> bool {
    place_of(entries, key) < entries.len()
}

impl<K: TableKey, V> Table<K, V> {
    pub open spec fn wf(self) -> bool {
        &&& distinct_keys(self.entries@)
        &&& forall|i: int|
            0 <= i < self.entries@.len() ==> #[trigger] self.places@.contains_key(
                self.entries@[i].0.code(),
            ) && self.places@[self.entries@[i].0.code()]@.contains(i as usize)
        &&& forall|code: u64, n: int|
            #![trigger self.places@[code]@[n]]
            self.places@.contains_key(code) && 0 <= n < self.places@[code]@.len()
                ==> self.places@[code]@[n] < self.entries@.len()
    }

    pub fn new() -> (table: Self)
        ensures
            table.wf(),
            table.entries@.len() == 0,
    {
        Table { entries: Vec::new(), places: HashMap::new() }
    }

    /// The place of the entry with a key.
    pub fn find(&self, key: &K) -> (place: Option<usize>)
        requires
            self.wf(),
        ensures
            match place {
                Some(place) => place == place_of(self.entries@, *key) && place
                    < self.entries@.len(),
                None => !has_key(self.entries@, *key),
            },
    {
        let code = key.hash_code();
        let ghost all = self.entries@;
        let ghost count: usize = self.entries.len();
        let ghost spot = place_of(all, *key);
        proof {
            lemma_place_of(all, *key);
            if spot < all.len() {
                K::same_has_same_code(all[spot].0, *key);
                assert(self.places@.contains_key(all[spot].0.code()));
            }
        }
        match self.places.get(&code) {
            Some(places) => {
                let mut n: usize = 0;
                while n < places.len()
                    invariant
                        self.wf(),
                        all == self.entries@,
                        self.places@.contains_key(code),
                        places@ == self.places@[code]@,
                        n <= places@.len(),
                        forall|m: int|
                            0 <= m < n ==> !all[(#[trigger] places@[m]) as int].0.same_as(*key),
                    decreases places@.len() - n,
                {
                    let place: usize = places[n];
                    assert(self.places@[code]@[n as int] < self.entries@.len());
                    if self.entries[place].0.is_same(key) {
                        proof {
                            lemma_place_of(all, *key);
                            let first = place_of(all, *key);
                            if first != place {
                                K::same_is_symmetric(all[first].0, *key);
                                K::same_is_symmetric(all[place as int].0, *key);
                                K::same_is_transitive(
                                    all[first].0,
                                    *key,
                                    all[place as int].0,
                                );
                                assert(!all[first].0.same_as(all[place as int].0));
                            }
                        }
                        return Some(place);
                    }
                    n += 1;
                }
                proof {
                    lemma_place_of(all, *key);
                    if spot < all.len() {
                        assert(spot < count);
                        assert(places@.contains(spot as usize));
                        let m = choose|m: int| 0 <= m < places@.len() && places@[m] == spot;
                        assert(!all[places@[m] as int].0.same_as(*key));
                    }
                }
                None
            },
            None => None,
        }
    }

    /// Appends an entry with a new key.
    pub fn append(&mut self, key: K, value: V)
        requires
            old(self).wf(),
            !has_key(old(self).entries@, key),
        ensures
            final(self).wf(),
            final(self).entries@ == old(self).entries@.push((key, value)),
    {
        let ghost before = *self;
        let code = key.hash_code();
        let place: usize = self.entries.len();
        let mut places: Vec<usize> = match self.places.remove(&code) {
            Some(places) => places,
            None => Vec::new(),
        };
        let ghost earlier = places@;
        places.push(place);
        self.places.insert(code, places);
        self.entries.push((key, value));
        proof {
            lemma_place_of(before.entries@, key);
            lists::lemma_push_contains(earlier, place);
            let all = self.entries@;
            assert forall|i: int, j: int| 0 <= i < j < all.len() implies !(
            #[trigger] all[i]).0.same_as((#[trigger] all[j]).0) by {
                if j < all.len() - 1 {
                    assert(all[i] == before.entries@[i]);
                    assert(all[j] == before.entries@[j]);
                } else {
                    assert(all[i] == before.entries@[i]);
                }
            }
            assert forall|i: int| 0 <= i < all.len() implies #[trigger] self.places@.contains_key(
                all[i].0.code(),
            ) && self.places@[all[i].0.code()]@.contains(i as usize) by {
                if i < all.len() - 1 {
                    assert(all[i] == before.entries@[i]);
                    assert(before.places@.contains_key(before.entries@[i].0.code()));
                }
            }
            assert forall|c: u64, n: int|
                #![trigger self.places@[c]@[n]]
                self.places@.contains_key(c) && 0 <= n < self.places@[c]@.len() implies self.places@[c]@[n]
                < all.len() by {
                if c == code {
                    if n < earlier.len() {
                        assert(before.places@.contains_key(c));
                        assert(before.places@[c]@[n] < before.entries@.len());
                    }
                } else {
                    assert(before.places@[c]@[n] < before.entries@.len());
                }
            }
        }
    }

    /// Replaces the value of an entry.
    pub fn set_value(&mut self, place: usize, value: V)
        requires
            old(self).wf(),
            place < old(self).entries@.len(),
        ensures
            final(self).wf(),
            final(self).entries@ == old(self).entries@.update(
                place as int,
                (old(self).entries@[place as int].0, value),
            ),
    {
        let ghost before = *self;
        self.entries[place].1 = value;
        proof {
            assert(self.entries@ =~= before.entries@.update(
                place as int,
                (before.entries@[place as int].0, value),
            ));
            assert forall|i: int, j: int| 0 <= i < j < self.entries@.len() implies !(
            #[trigger] self.entries@[i]).0.same_as((#[trigger] self.entries@[j]).0) by {
                assert(!before.entries@[i].0.same_as(before.entries@[j].0));
            }
            assert forall|i: int|
                0 <= i < self.entries@.len() implies #[trigger] self.places@.contains_key(
                self.entries@[i].0.code(),
            ) && self.places@[self.entries@[i].0.code()]@.contains(i as usize) by {
                assert(before.places@.contains_key(before.entries@[i].0.code()));
            }
        }
    }
}

} // verus!
