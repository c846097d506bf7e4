//! The cache of directory sizes.
//!
//! A cached size counts as long as it is not too old and the directory is
//! still the same by device, inode and modification time.
use vstd::prelude::*;
use vstd::string::StringExecFns;

use crate::analytics;
use crate::lists;
use crate::order;
use crate::path;
use crate::path::FilePath;
use crate::table;
use crate::table::{RawKey, Table, TableKey};
use crate::text;
use crate::tree;
use crate::tree::{FileIdentity, UsageStats};

verus! {

pub const CACHE_SCHEMA: u32 = 1;

pub const MAX_CACHE_ENTRIES: usize = 50_000;

/// The size of a directory, and when it was found. Times are in seconds.
#[derive(Debug)]
pub struct CacheRecord {
    pub path: FilePath,
    pub identity: FileIdentity,
    pub usage: UsageStats,
    pub one_file_system: bool,
    pub saved_at: u64,
}

impl Clone for CacheRecord {
    fn clone(&self) -> (copy: Self)
        ensures
            copy == *self,
    {
        CacheRecord {
            path: self.path.clone(),
            identity: self.identity,
            usage: self.usage,
            one_file_system: self.one_file_system,
            saved_at: self.saved_at,
        }
    }
}

/// The cache as it is stored.
#[derive(Debug)]
pub struct CacheFile {
    pub schema: u32,
    pub records: Vec<CacheRecord>,
}

#[derive(Debug)]
pub struct ScanCache {
    pub path: FilePath,
    pub ttl: u64,
    pub enabled: bool,
    pub dirty: bool,
    pub records: Table<RawKey, CacheRecord>,
}

pub struct CacheModel {
    pub path: FilePath,
    pub ttl: u64,
    pub enabled: bool,
    pub dirty: bool,
    pub records: Seq<CacheRecord>,
}

/// The records of a table.
pub open spec fn values(entries: Seq<(RawKey, CacheRecord)>) -> Seq<CacheRecord> {
    Seq::new(entries.len(), |i: int| entries[i].1)
}

impl View for ScanCache {
    type V = CacheModel;

    open spec fn view(&self) -> CacheModel {
        CacheModel {
            path: self.path,
            ttl: self.ttl,
            enabled: self.enabled,
            dirty: self.dirty,
            records: values(self.records.entries@),
        }
    }
}

/// The place of the record of a path, or the number of records. Paths are
/// told apart by their bytes.
pub open spec fn record_place(records: Seq<CacheRecord>, path: Seq<u8>) -> int
    decreases records.len(),
{
    if records.len() == 0 {
        0
    } else if record_place(records.drop_last(), path) < records.len() - 1 {
        record_place(records.drop_last(), path)
    } else if records.last().path@ == path {
        records.len() - 1
    } else {
        records.len() as int
    }
}

/// The records with another one, which takes the place of the one with its
/// path.
pub open spec fn put(records: Seq<CacheRecord>, record: CacheRecord) -> Seq<CacheRecord> {
    let place = record_place(records, record.path@);
    if place < records.len() {
        records.update(place, record)
    } else {
        records.push(record)
    }
}

pub open spec fn put_all(records: Seq<CacheRecord>) -> Seq<CacheRecord>
    decreases records.len(),
{
    if records.len() == 0 {
        Seq::empty()
    } else {
        put(put_all(records.drop_last()), records.last())
    }
}

/// Whether a record is not too old.
pub open spec fn is_fresh(record: CacheRecord, ttl: u64, now: u64) -> bool {
    tree::saturated(now - record.saved_at) <= ttl
}

pub open spec fn fresh(ttl: u64, now: u64) -> spec_fn(CacheRecord) -> bool {
    |record: CacheRecord| is_fresh(record, ttl, now)
}

/// The sort keys that put the latest records first.
pub open spec fn age_keys(records: Seq<CacheRecord>) -> Seq<Seq<u64>> {
    Seq::new(records.len(), |i: int| seq![(u64::MAX - records[i].saved_at) as u64])
}

/// The latest records, up to the largest number that is kept.
pub open spec fn latest(records: Seq<CacheRecord>) -> Seq<CacheRecord> {
    let sorted = order::sorted_by(records, age_keys(records));
    if sorted.len() > MAX_CACHE_ENTRIES {
        sorted.take(MAX_CACHE_ENTRIES as int)
    } else {
        sorted
    }
}

/// The records within the largest number that is kept.
pub open spec fn pruned(records: Seq<CacheRecord>) -> Seq<CacheRecord> {
    if records.len() > MAX_CACHE_ENTRIES {
        latest(records)
    } else {
        records
    }
}

/// What lies outside a subtree.
pub open spec fn outside(root: Seq<u8>) -> spec_fn(CacheRecord) -> bool {
    |record: CacheRecord| !path::path_starts_with(record.path@, root)
}

/// What is kept for other paths.
pub open spec fn not_at(path: Seq<u8>) -> spec_fn(CacheRecord) -> bool {
    |record: CacheRecord| record.path@ != path
}

/// Whether no two records are of the same path.
pub open spec fn distinct_records(records: Seq<CacheRecord>) -> bool {
    forall|i: int, j: int|
        0 <= i < j < records.len() ==> (#[trigger] records[i]).path@ != (#[trigger] records[j]).path@
}

impl CacheModel {
    /// The cached usage of a directory that is still the same.
    pub open spec fn found(
        self,
        path: Seq<u8>,
        identity: FileIdentity,
        one_file_system: bool,
        now: u64,
    ) -> Option<UsageStats> {
        let place = record_place(self.records, path);
        if self.enabled && place < self.records.len() && self.records[place].identity == identity
            && self.records[place].one_file_system == one_file_system && is_fresh(
            self.records[place],
            self.ttl,
            now,
        ) {
            Some(self.records[place].usage)
        } else {
            None
        }
    }

    /// The cache with the usage of a directory.
    pub open spec fn with_usage(
        self,
        path: FilePath,
        identity: FileIdentity,
        usage: UsageStats,
        one_file_system: bool,
        now: u64,
    ) -> CacheModel {
        if self.enabled {
            CacheModel {
                records: pruned(
                    put(
                        self.records,
                        CacheRecord { path, identity, usage, one_file_system, saved_at: now },
                    ),
                ),
                dirty: true,
                ..self
            }
        } else {
            self
        }
    }

    /// The cache without what lies below a path.
    pub open spec fn without_subtree(self, root: Seq<u8>) -> CacheModel {
        if self.enabled {
            let rest = self.records.filter(outside(root));
            CacheModel {
                records: rest,
                dirty: self.dirty || rest.len() != self.records.len(),
                ..self
            }
        } else {
            self
        }
    }

    /// The cache without one path.
    pub open spec fn without_path(self, path: Seq<u8>) -> CacheModel {
        if self.enabled && record_place(self.records, path) < self.records.len() {
            CacheModel { records: self.records.filter(not_at(path)), dirty: true, ..self }
        } else {
            self
        }
    }
}

/// Whether every record stands under its own path.
pub open spec fn keyed(entries: Seq<(RawKey, CacheRecord)>) -> bool {
    forall|i: int|
        0 <= i < entries.len() ==> (#[trigger] entries[i]).0.path@ == entries[i].1.path@
}

proof fn lemma_place(entries: Seq<(RawKey, CacheRecord)>, key: RawKey)
    requires
        keyed(entries),
    ensures
        table::place_of(entries, key) == record_place(values(entries), key.path@),
    decreases entries.len(),
{
    if entries.len() > 0 {
        let rest = entries.drop_last();
        assert forall|i: int| 0 <= i < rest.len() implies (#[trigger] rest[i]).0.path@
            == rest[i].1.path@ by {
            assert(rest[i] == entries[i]);
        }
        lemma_place(rest, key);
        assert(values(entries).drop_last() =~= values(rest));
        assert(entries[entries.len() - 1].0.path@ == entries[entries.len() - 1].1.path@);
    }
}

proof fn lemma_record_place(records: Seq<CacheRecord>, path: Seq<u8>)
    ensures
        0 <= record_place(records, path) <= records.len(),
        record_place(records, path) < records.len() ==> records[record_place(
            records,
            path,
        )].path@ == path,
        forall|i: int|
            0 <= i < record_place(records, path) ==> (#[trigger] records[i]).path@ != path,
    decreases records.len(),
{
    if records.len() > 0 {
        let rest = records.drop_last();
        lemma_record_place(rest, path);
        assert forall|i: int| 0 <= i < record_place(records, path) implies (
        #[trigger] records[i]).path@ != path by {
            if i < rest.len() {
                assert(rest[i] == records[i]);
            }
        }
    }
}

/// Records of different paths are put one behind the other.
proof fn lemma_put_all(records: Seq<CacheRecord>)
    requires
        distinct_records(records),
    ensures
        put_all(records) == records,
    decreases records.len(),
{
    if records.len() > 0 {
        let rest = records.drop_last();
        assert(distinct_records(rest)) by {
            assert forall|i: int, j: int| 0 <= i < j < rest.len() implies (
            #[trigger] rest[i]).path@ != (#[trigger] rest[j]).path@ by {
                assert(records[i].path@ != records[j].path@);
            }
        }
        lemma_put_all(rest);
        lemma_record_place(rest, records.last().path@);
        let place = record_place(rest, records.last().path@);
        if place < rest.len() {
            assert(records[place].path@ != records[records.len() - 1].path@);
        }
        assert(put_all(records) =~= records);
    } else {
        assert(put_all(records) =~= records);
    }
}

/// Puts a record in a table.
fn put_record(table: &mut Table<RawKey, CacheRecord>, record: CacheRecord)
    requires
        old(table).wf(),
        keyed(old(table).entries@),
    ensures
        final(table).wf(),
        keyed(final(table).entries@),
        values(final(table).entries@) == put(values(old(table).entries@), record),
{
    let ghost before = table.entries@;
    let key = RawKey { path: record.path.clone() };
    proof {
        lemma_place(before, key);
        table::lemma_place_of(before, key);
    }
    match table.find(&key) {
        Some(place) => {
            table.set_value(place, record);
        },
        None => {
            table.append(key, record);
        },
    }
    assert(values(table.entries@) =~= put(values(before), record));
}

/// A table of some records.
fn table_of(records: &Vec<CacheRecord>) -> (result: Table<RawKey, CacheRecord>)
    ensures
        result.wf(),
        keyed(result.entries@),
        values(result.entries@) == put_all(records@),
{
    let mut result: Table<RawKey, CacheRecord> = Table::new();
    assert(values(result.entries@) =~= put_all(records@.take(0)));
    let mut i: usize = 0;
    while i < records.len()
        invariant
            i <= records@.len(),
            result.wf(),
            keyed(result.entries@),
            values(result.entries@) == put_all(records@.take(i as int)),
        decreases records@.len() - i,
    {
        assert(records@.take(i + 1).drop_last() =~= records@.take(i as int));
        put_record(&mut result, records[i].clone());
        i += 1;
    }
    assert(records@.take(i as int) =~= records@);
    result
}

/// The latest records, up to the largest number that is kept.
fn latest_of(records: Vec<CacheRecord>) -> (result: Vec<CacheRecord>)
    ensures
        result@ == latest(records@),
        distinct_records(records@) ==> distinct_records(result@),
{
    let mut keys: Vec<Vec<u64>> = Vec::new();
    let mut i: usize = 0;
    while i < records.len()
        invariant
            i <= records@.len(),
            keys@.len() == i,
            forall|k: int| 0 <= k < i ==> (#[trigger] keys@[k])@ == age_keys(records@)[k],
        decreases records@.len() - i,
    {
        let mut key: Vec<u64> = Vec::new();
        key.push(u64::MAX - records[i].saved_at);
        assert(key@ =~= age_keys(records@)[i as int]);
        keys.push(key);
        i += 1;
    }
    assert(order::contents(keys@) =~= age_keys(records@));
    let ghost all = records@;
    let ghost count: usize = records.len();
    let mut sorted = order::sort_by_keys(records, &keys);
    proof {
        let order = order::stable_order_exists(age_keys(all));
        if distinct_records(all) {
            assert forall|i: int, j: int| 0 <= i < j < sorted@.len() implies (
            #[trigger] sorted@[i]).path@ != (#[trigger] sorted@[j]).path@ by {
                assert(order::before(age_keys(all), order[i] as int, order[j] as int));
                assert(order[i] != order[j]);
                if order[i] < order[j] {
                    assert(all[order[i] as int].path@ != all[order[j] as int].path@);
                } else {
                    assert(all[order[j] as int].path@ != all[order[i] as int].path@);
                }
            }
        }
    }
    if sorted.len() > MAX_CACHE_ENTRIES {
        sorted.truncate(MAX_CACHE_ENTRIES);
    }
    sorted
}

impl ScanCache {
    /// Every record stands under its own path.
    pub closed spec fn wf(self) -> bool {
        self.records.wf() && keyed(self.records.entries@)
    }

    proof fn lemma_distinct(self)
        requires
            self.wf(),
        ensures
            distinct_records(self@.records),
    {
        let entries = self.records.entries@;
        assert forall|i: int, j: int| 0 <= i < j < self@.records.len() implies (
        #[trigger] self@.records[i]).path@ != (#[trigger] self@.records[j]).path@ by {
            assert(!entries[i].0.same_as(entries[j].0));
        }
    }

    /// The cache as found on disk; `stored` is missing where there is no file.
    /// Records that are too old are left out. A cache that cannot be read is
    /// ignored with a warning.
    pub fn load(
        path: FilePath,
        enabled: bool,
        ttl: u64,
        stored: Option<Result<CacheFile, String>>,
        now: u64,
    ) -> (result: (Self, Option<String>))
        ensures
            result.0.wf(),
            result.0@ == (CacheModel {
                path,
                ttl,
                enabled,
                dirty: false,
                records: stored_records(enabled, ttl, stored, now),
            }),
            tree::text_view(result.1) == load_warning(enabled, stored),
    {
        let mut warning: Option<String> = None;
        let mut records: Table<RawKey, CacheRecord> = Table::new();
        assert(values(records.entries@) =~= Seq::empty());
        if enabled {
            match stored {
                Some(Ok(file)) => {
                    if file.schema == CACHE_SCHEMA {
                        let ghost all = file.records@;
                        let mut kept: Vec<CacheRecord> = Vec::new();
                        let mut i: usize = 0;
                        proof {
                            reveal(Seq::filter);
                            assert(all.take(0).filter(fresh(ttl, now)) =~= Seq::empty());
                        }
                        while i < file.records.len()
                            invariant
                                i <= file.records@.len(),
                                all == file.records@,
                                kept@ == all.take(i as int).filter(fresh(ttl, now)),
                            decreases file.records@.len() - i,
                        {
                            proof {
                                lists::lemma_filter_step(all, fresh(ttl, now), i as int);
                            }
                            if now.saturating_sub(file.records[i].saved_at) <= ttl {
                                kept.push(file.records[i].clone());
                            }
                            i += 1;
                        }
                        assert(all.take(i as int) =~= all);
                        let newest = latest_of(kept);
                        records = table_of(&newest);
                    } else {
                        warning = Some("Ignoring cache with an unsupported schema".to_owned());
                    }
                },
                Some(Err(error)) => {
                    let mut message = String::new();
                    message.append("Ignoring unreadable scan cache: ");
                    message.append(error.as_str());
                    assert(message@ =~= "Ignoring unreadable scan cache: "@ + error@);
                    warning = Some(message);
                },
                None => {},
            }
        }
        (ScanCache { path, ttl, enabled, dirty: false, records }, warning)
    }

    /// The cached usage of a directory, as of now.
    pub fn lookup(&self, path: &FilePath, identity: FileIdentity, one_file_system: bool) -> (usage:
        Option<UsageStats>)
        requires
            self.wf(),
        ensures
            exists|now: u64| usage == self@.found(path@, identity, one_file_system, now),
    {
        let now = analytics::now_seconds();
        let usage = self.lookup_at(path, identity, one_file_system, now);
        assert(usage == self@.found(path@, identity, one_file_system, now));
        usage
    }

    /// The cached usage of a directory at the given time.
    pub fn lookup_at(
        &self,
        path: &FilePath,
        identity: FileIdentity,
        one_file_system: bool,
        now: u64,
    ) -> (usage: Option<UsageStats>)
        requires
            self.wf(),
        ensures
            usage == self@.found(path@, identity, one_file_system, now),
    {
        if !self.enabled {
            return None;
        }
        let key = RawKey { path: path.clone() };
        proof {
            lemma_place(self.records.entries@, key);
            table::lemma_place_of(self.records.entries@, key);
        }
        match self.records.find(&key) {
            Some(place) => {
                let record: &CacheRecord = &self.records.entries[place].1;
                if record.identity == identity && record.one_file_system == one_file_system
                    && now.saturating_sub(record.saved_at) <= self.ttl {
                    Some(record.usage)
                } else {
                    None
                }
            },
            None => None,
        }
    }

    /// Caches the usage of a directory, as of now.
    pub fn insert(
        &mut self,
        path: &FilePath,
        identity: FileIdentity,
        usage: UsageStats,
        one_file_system: bool,
    )
        requires
            old(self).wf(),
        ensures
            final(self).wf(),
            exists|now: u64|
                final(self)@ == old(self)@.with_usage(*path, identity, usage, one_file_system, now),
    {
        let ghost before = self@;
        let now = analytics::now_seconds();
        self.insert_at(path, identity, usage, one_file_system, now);
        assert(self@ == before.with_usage(*path, identity, usage, one_file_system, now));
    }

    /// Caches the usage of a directory at the given time.
    pub fn insert_at(
        &mut self,
        path: &FilePath,
        identity: FileIdentity,
        usage: UsageStats,
        one_file_system: bool,
        now: u64,
    )
        requires
            old(self).wf(),
        ensures
            final(self).wf(),
            final(self)@ == old(self)@.with_usage(*path, identity, usage, one_file_system, now),
    {
        if !self.enabled {
            return ;
        }
        let record = CacheRecord {
            path: path.clone(),
            identity,
            usage,
            one_file_system,
            saved_at: now,
        };
        put_record(&mut self.records, record);
        self.prune();
        self.dirty = true;
    }

    /// The records, in the order in which they came.
    fn record_list(&self) -> (records: Vec<CacheRecord>)
        ensures
            records@ == self@.records,
    {
        let mut records: Vec<CacheRecord> = Vec::new();
        let mut i: usize = 0;
        while i < self.records.entries.len()
            invariant
                i <= self.records.entries@.len(),
                records@ == self@.records.take(i as int),
            decreases self.records.entries@.len() - i,
        {
            records.push(self.records.entries[i].1.clone());
            i += 1;
            assert(records@ =~= self@.records.take(i as int));
        }
        assert(records@ =~= self@.records);
        records
    }

    /// Gives up the oldest records where there are too many.
    fn prune(&mut self)
        requires
            old(self).wf(),
        ensures
            final(self).wf(),
            final(self)@ == (CacheModel { records: pruned(old(self)@.records), ..old(self)@ }),
    {
        if self.records.entries.len() <= MAX_CACHE_ENTRIES {
            return ;
        }
        proof {
            self.lemma_distinct();
        }
        let list = self.record_list();
        let newest = latest_of(list);
        proof {
            lemma_put_all(newest@);
        }
        self.records = table_of(&newest);
    }

    /// Forgets what lies below a path.
    pub fn invalidate_subtree(&mut self, root: &FilePath)
        requires
            old(self).wf(),
        ensures
            final(self).wf(),
            final(self)@ == old(self)@.without_subtree(root@),
    {
        if !self.enabled {
            return ;
        }
        proof {
            self.lemma_distinct();
        }
        let ghost all = self@.records;
        let mut rest: Vec<CacheRecord> = Vec::new();
        let mut i: usize = 0;
        proof {
            reveal(Seq::filter);
            assert(all.take(0).filter(outside(root@)) =~= Seq::empty());
        }
        while i < self.records.entries.len()
            invariant
                i <= self.records.entries@.len(),
                all == self@.records,
                rest@ == all.take(i as int).filter(outside(root@)),
            decreases self.records.entries@.len() - i,
        {
            proof {
                lists::lemma_filter_step(all, outside(root@), i as int);
            }
            if !self.records.entries[i].1.path.starts_with(root) {
                rest.push(self.records.entries[i].1.clone());
            }
            i += 1;
        }
        assert(all.take(i as int) =~= all);
        if rest.len() != self.records.entries.len() {
            self.dirty = true;
            proof {
                lemma_filter_distinct(all, outside(root@));
                lemma_put_all(rest@);
            }
            self.records = table_of(&rest);
        } else {
            proof {
                lemma_filter_all(all, outside(root@));
            }
        }
    }

    /// Forgets one path.
    pub fn invalidate_path(&mut self, path: &FilePath)
        requires
            old(self).wf(),
        ensures
            final(self).wf(),
            final(self)@ == old(self)@.without_path(path@),
    {
        if !self.enabled {
            return ;
        }
        let key = RawKey { path: path.clone() };
        proof {
            lemma_place(self.records.entries@, key);
            table::lemma_place_of(self.records.entries@, key);
            self.lemma_distinct();
        }
        if self.records.find(&key).is_none() {
            return ;
        }
        let ghost all = self@.records;
        let mut rest: Vec<CacheRecord> = Vec::new();
        let mut i: usize = 0;
        proof {
            reveal(Seq::filter);
            assert(all.take(0).filter(not_at(path@)) =~= Seq::empty());
        }
        while i < self.records.entries.len()
            invariant
                i <= self.records.entries@.len(),
                all == self@.records,
                key.path == *path,
                rest@ == all.take(i as int).filter(not_at(path@)),
            decreases self.records.entries@.len() - i,
        {
            proof {
                lists::lemma_filter_step(all, not_at(path@), i as int);
            }
            let record: &CacheRecord = &self.records.entries[i].1;
            if !path::same_bytes(record.path.as_bytes().as_slice(), path.as_bytes().as_slice()) {
                rest.push(record.clone());
            }
            i += 1;
        }
        assert(all.take(i as int) =~= all);
        proof {
            lemma_filter_distinct(all, not_at(path@));
            lemma_put_all(rest@);
        }
        self.records = table_of(&rest);
        self.dirty = true;
    }

    /// What has to be written to disk, if anything: the latest records.
    pub fn to_store(&self) -> (result: Result<Option<CacheFile>, String>)
        ensures
            match result {
                Ok(None) => !self.enabled || !self.dirty,
                Ok(Some(file)) => {
                    &&& self.enabled && self.dirty
                    &&& path::parent_of(self.path@) is Some
                    &&& file.schema == CACHE_SCHEMA
                    &&& file.records@ == latest(self@.records)
                },
                Err(message) => {
                    &&& self.enabled && self.dirty
                    &&& path::parent_of(self.path@) is None
                    &&& message@ == "Invalid cache path: "@ + text::lossy_text(self.path@)
                },
            },
    {
        if !self.enabled || !self.dirty {
            return Ok(None);
        }
        if self.path.parent().is_none() {
            let mut message = String::new();
            message.append("Invalid cache path: ");
            let shown = self.path.display();
            message.append(shown.as_str());
            assert(message@ =~= "Invalid cache path: "@ + text::lossy_text(self.path@));
            return Err(message);
        }
        let list = self.record_list();
        Ok(Some(CacheFile { schema: CACHE_SCHEMA, records: latest_of(list) }))
    }

    /// The cache has been written to disk.
    pub fn stored(&mut self)
        requires
            old(self).wf(),
        ensures
            final(self).wf(),
            final(self)@ == (CacheModel { dirty: false, ..old(self)@ }),
    {
        self.dirty = false;
    }
}

proof fn lemma_filter_distinct(records: Seq<CacheRecord>, keep: spec_fn(CacheRecord) -> bool)
    requires
        distinct_records(records),
    ensures
        distinct_records(records.filter(keep)),
    decreases records.len(),
{
    reveal(Seq::filter);
    if records.len() > 0 {
        let rest = records.drop_last();
        assert(distinct_records(rest)) by {
            assert forall|i: int, j: int| 0 <= i < j < rest.len() implies (
            #[trigger] rest[i]).path@ != (#[trigger] rest[j]).path@ by {
                assert(records[i].path@ != records[j].path@);
            }
        }
        lemma_filter_distinct(rest, keep);
        let kept = rest.filter(keep);
        assert forall|i: int| 0 <= i < kept.len() implies (#[trigger] kept[i]).path@
            != records.last().path@ by {
            assert(kept.contains(kept[i]));
            rest.lemma_filter_contains_rev(keep, kept[i]);
            let j = choose|j: int| 0 <= j < rest.len() && rest[j] == kept[i];
            assert(records[j].path@ != records[records.len() - 1].path@);
        }
        let all = records.filter(keep);
        assert forall|i: int, j: int| 0 <= i < j < all.len() implies (#[trigger] all[i]).path@ != (
        #[trigger] all[j]).path@ by {
            if j < kept.len() {
                assert(kept[i].path@ != kept[j].path@);
            } else {
                assert(kept[i].path@ != records.last().path@);
            }
        }
    }
}

proof fn lemma_filter_all(records: Seq<CacheRecord>, keep: spec_fn(CacheRecord) -> bool)
    requires
        records.filter(keep).len() == records.len(),
    ensures
        records.filter(keep) == records,
    decreases records.len(),
{
    reveal(Seq::filter);
    if records.len() > 0 {
        records.drop_last().lemma_filter_len(keep);
        lemma_filter_all(records.drop_last(), keep);
        assert(records.filter(keep) =~= records);
    }
}

/// The records of a cache that was found on disk.
pub open spec fn stored_records(
    enabled: bool,
    ttl: u64,
    stored: Option<Result<CacheFile, String>>,
    now: u64,
) -> Seq<CacheRecord> {
    match stored {
        Some(Ok(file)) => if enabled && file.schema == CACHE_SCHEMA {
            put_all(latest(file.records@.filter(fresh(ttl, now))))
        } else {
            Seq::empty()
        },
        _ => Seq::empty(),
    }
}

/// What is said of a cache that was found on disk.
pub open spec fn load_warning(enabled: bool, stored: Option<Result<CacheFile, String>>) -> Option<
    Seq<char>,
> {
    if !enabled {
        None
    } else {
        match stored {
            None => None,
            Some(Ok(file)) => if file.schema == CACHE_SCHEMA {
                None
            } else {
                Some("Ignoring cache with an unsupported schema"@)
            },
            Some(Err(error)) => Some("Ignoring unreadable scan cache: "@ + error@),
        }
    }
}

/// With no two records of the same path, every record stands at the place of
/// its path.
proof fn lemma_own_place(records: Seq<CacheRecord>, i: int)
    requires
        distinct_records(records),
        0 <= i < records.len(),
    ensures
        record_place(records, records[i].path@) == i,
{
    let place = record_place(records, records[i].path@);
    lemma_record_place(records, records[i].path@);
    if place < i {
        assert(records[place].path@ != records[i].path@);
    } else if i < place {
        assert(records[i].path@ != records[i].path@);
    }
}

/// Lists with the same records have the same record for a path.
proof fn lemma_same_record(left: Seq<CacheRecord>, right: Seq<CacheRecord>, path: Seq<u8>)
    requires
        distinct_records(left),
        distinct_records(right),
        forall|record: CacheRecord|
            record.path@ == path ==> (#[trigger] left.contains(record) <==> right.contains(record)),
    ensures
        ({
            let first = record_place(left, path);
            let second = record_place(right, path);
            &&& 0 <= first <= left.len()
            &&& 0 <= second <= right.len()
            &&& first < left.len() <==> second < right.len()
            &&& first < left.len() ==> left[first] == right[second]
        }),
{
    lemma_record_place(left, path);
    lemma_record_place(right, path);
    let first = record_place(left, path);
    let second = record_place(right, path);
    if first < left.len() {
        assert(left.contains(left[first]));
        let i = choose|i: int| 0 <= i < right.len() && right[i] == left[first];
        lemma_own_place(right, i);
    } else if second < right.len() {
        assert(right.contains(right[second]));
        assert(left.contains(right[second]));
        let i = choose|i: int| 0 <= i < left.len() && left[i] == right[second];
        lemma_own_place(left, i);
    }
}

/// The latest records are as different from each other as all records are.
proof fn lemma_latest_distinct(records: Seq<CacheRecord>)
    requires
        distinct_records(records),
        records.len() <= usize::MAX,
    ensures
        distinct_records(latest(records)),
{
    let keys = age_keys(records);
    let sorted = order::sorted_by(records, keys);
    order::sorting_keeps_the_items(records, keys);
    let order = order::stable_order_exists(keys);
    assert forall|i: int, j: int| 0 <= i < j < sorted.len() implies (#[trigger] sorted[i]).path@
        != (#[trigger] sorted[j]).path@ by {
        order::sorting_orders_the_items(records, keys, i, j);
        let a = order[i] as int;
        let b = order[j] as int;
        if a < b {
            assert(records[a].path@ != records[b].path@);
        } else if b < a {
            assert(records[b].path@ != records[a].path@);
        }
    }
    assert forall|i: int, j: int| 0 <= i < j < latest(records).len() implies (
    #[trigger] latest(records)[i]).path@ != (#[trigger] latest(records)[j]).path@ by {
        assert(latest(records)[i] == sorted[i]);
        assert(latest(records)[j] == sorted[j]);
    }
}

/// Where nothing has to be given up, the latest records are all records.
proof fn lemma_latest_all(records: Seq<CacheRecord>)
    requires
        records.len() <= MAX_CACHE_ENTRIES,
    ensures
        forall|record: CacheRecord| #[trigger]
            latest(records).contains(record) <==> records.contains(record),
        latest(records).len() == records.len(),
{
    order::sorting_keeps_the_items(records, age_keys(records));
}

/// Of one record too many the one that is given up is not newer than another.
proof fn lemma_kept(records: Seq<CacheRecord>, at: int, older: int)
    requires
        records.len() == MAX_CACHE_ENTRIES + 1,
        0 <= at < records.len(),
        0 <= older < records.len(),
        records[older].saved_at < records[at].saved_at,
    ensures
        latest(records).contains(records[at]),
{
    let keys = age_keys(records);
    let order = order::stable_order_exists(keys);
    let sorted = order::sorted_by(records, keys);
    order::stable_order_has_every_item(keys, order, at);
    let i = choose|i: int| 0 <= i < order.len() && order[i] == at;
    order::stable_order_has_every_item(keys, order, older);
    let j = choose|j: int| 0 <= j < order.len() && order[j] == older;
    if j < i {
        order::sorting_orders_the_items(records, keys, j, i);
        assert(keys[older][0] > keys[at][0]);
    }
    assert(sorted[i] == records[at]);
    assert(latest(records)[i] == sorted[i]);
}

/// What was cached is found again, for the same directory and until it is too
/// old. Only a full cache of records that are all at least as new has no room
/// for another path.
pub proof fn cached_usage_is_found(
    cache: CacheModel,
    path: FilePath,
    identity: FileIdentity,
    usage: UsageStats,
    one_file_system: bool,
    saved: u64,
    now: u64,
)
    requires
        cache.enabled,
        cache.records.len() <= MAX_CACHE_ENTRIES,
        distinct_records(cache.records),
        cache.records.len() < MAX_CACHE_ENTRIES || (exists|i: int|
            0 <= i < cache.records.len() && ((#[trigger] cache.records[i]).path@ == path@
                || cache.records[i].saved_at < saved)),
        now - saved <= cache.ttl,
    ensures
        cache.with_usage(path, identity, usage, one_file_system, saved).found(
            path@,
            identity,
            one_file_system,
            now,
        ) == Some(usage),
        forall|other: FileIdentity|
            other != identity ==> #[trigger] cache.with_usage(
                path,
                identity,
                usage,
                one_file_system,
                saved,
            ).found(path@, other, one_file_system, now) is None,
{
    let record = CacheRecord { path, identity, usage, one_file_system, saved_at: saved };
    let after = put(cache.records, record);
    let place = record_place(cache.records, path@);
    lemma_record_place(cache.records, path@);
    assert(after[place] == record);
    assert(distinct_records(after)) by {
        assert forall|i: int, j: int| 0 <= i < j < after.len() implies (#[trigger] after[i]).path@
            != (#[trigger] after[j]).path@ by {
            if j < cache.records.len() {
                assert(cache.records[i].path@ != cache.records[j].path@);
            } else {
                assert(cache.records[i].path@ != path@);
            }
        }
    }
    lemma_own_place(after, place);
    if after.len() > MAX_CACHE_ENTRIES {
        let older = choose|i: int|
            0 <= i < cache.records.len() && ((#[trigger] cache.records[i]).path@ == path@
                || cache.records[i].saved_at < saved);
        assert(after[older] == cache.records[older]);
        lemma_kept(after, place, older);
        lemma_latest_distinct(after);
        let i = choose|i: int| 0 <= i < latest(after).len() && latest(after)[i] == record;
        lemma_own_place(latest(after), i);
    }
}

/// A cache never holds more than its largest number of records.
pub proof fn the_cache_stays_bounded(
    cache: CacheModel,
    path: FilePath,
    identity: FileIdentity,
    usage: UsageStats,
    one_file_system: bool,
    now: u64,
)
    requires
        cache.enabled,
    ensures
        cache.with_usage(path, identity, usage, one_file_system, now).records.len()
            <= MAX_CACHE_ENTRIES,
{
}

/// What was written to disk and read again is found as before.
pub proof fn stored_usage_is_found(
    cache: CacheModel,
    file: CacheFile,
    read_at: u64,
    path: Seq<u8>,
    identity: FileIdentity,
    one_file_system: bool,
    now: u64,
)
    requires
        cache.enabled,
        cache.records.len() <= MAX_CACHE_ENTRIES,
        distinct_records(cache.records),
        file.schema == CACHE_SCHEMA,
        file.records@ == latest(cache.records),
        read_at <= now,
    ensures
        (CacheModel {
            records: stored_records(true, cache.ttl, Some(Ok(file)), read_at),
            ..cache
        }).found(path, identity, one_file_system, now) == cache.found(
            path,
            identity,
            one_file_system,
            now,
        ),
{
    let written = latest(cache.records);
    let keep = fresh(cache.ttl, read_at);
    let kept = written.filter(keep);
    let read = latest(kept);
    lemma_latest_all(cache.records);
    lemma_latest_distinct(cache.records);
    written.lemma_filter_len(keep);
    lemma_filter_distinct(written, keep);
    lemma_latest_all(kept);
    lemma_latest_distinct(kept);
    lemma_put_all(read);
    lemma_record_place(cache.records, path);
    let place = record_place(cache.records, path);
    lemma_record_place(read, path);
    let found = record_place(read, path);
    if found < read.len() {
        assert(read.contains(read[found]));
        assert(kept.contains(read[found]));
        written.lemma_filter_contains_rev(keep, read[found]);
        let i = choose|i: int| 0 <= i < kept.len() && kept[i] == read[found];
        written.lemma_filter_pred(keep, i);
        assert(cache.records.contains(read[found]));
        let j = choose|j: int|
            0 <= j < cache.records.len() && cache.records[j] == read[found];
        lemma_own_place(cache.records, j);
    } else if place < cache.records.len() && is_fresh(cache.records[place], cache.ttl, now) {
        let record = cache.records[place];
        assert(cache.records.contains(record));
        assert(written.contains(record));
        let i = choose|i: int| 0 <= i < written.len() && written[i] == record;
        assert(keep(written[i]));
        written.lemma_filter_contains(keep, i);
        assert(kept.contains(record));
        assert(read.contains(record));
        let j = choose|j: int| 0 <= j < read.len() && read[j] == record;
        lemma_own_place(read, j);
    }
}

/// Forgetting keeps the paths of the records apart.
pub proof fn lemma_forgetting_keeps_distinct(cache: CacheModel, root: Seq<u8>)
    requires
        distinct_records(cache.records),
    ensures
        distinct_records(cache.without_subtree(root).records),
{
    lemma_filter_distinct(cache.records, outside(root));
}

/// Forgetting what lies below a path leaves the rest as it was.
pub proof fn forgetting_spares_the_rest(
    cache: CacheModel,
    root: Seq<u8>,
    path: Seq<u8>,
    identity: FileIdentity,
    one_file_system: bool,
    now: u64,
)
    requires
        distinct_records(cache.records),
        !path::path_starts_with(path, root),
    ensures
        cache.without_subtree(root).found(path, identity, one_file_system, now) == cache.found(
            path,
            identity,
            one_file_system,
            now,
        ),
{
    let keep = outside(root);
    let rest = cache.records.filter(keep);
    lemma_filter_distinct(cache.records, keep);
    assert forall|record: CacheRecord| record.path@ == path implies (
    #[trigger] cache.records.contains(record) <==> rest.contains(record)) by {
        if cache.records.contains(record) {
            let i = choose|i: int|
                0 <= i < cache.records.len() && cache.records[i] == record;
            cache.records.lemma_filter_contains(keep, i);
        }
        if rest.contains(record) {
            cache.records.lemma_filter_contains_rev(keep, record);
        }
    }
    lemma_same_record(cache.records, rest, path);
}

/// What was forgotten is not found.
pub proof fn forgotten_usage_is_not_found(
    cache: CacheModel,
    root: Seq<u8>,
    path: Seq<u8>,
    identity: FileIdentity,
    one_file_system: bool,
    now: u64,
)
    requires
        path::path_starts_with(path, root),
    ensures
        cache.without_subtree(root).found(path, identity, one_file_system, now) is None,
{
    let after = cache.without_subtree(root);
    lemma_record_place(after.records, path);
    let place = record_place(after.records, path);
    if after.enabled && place < after.records.len() {
        cache.records.lemma_filter_pred(outside(root), place);
    }
}

/// An entry that is too old is not found.
pub proof fn expired_usage_is_not_found(
    cache: CacheModel,
    path: Seq<u8>,
    identity: FileIdentity,
    one_file_system: bool,
    now: u64,
)
    requires
        forall|i: int|
            0 <= i < cache.records.len() && (#[trigger] cache.records[i]).path@ == path ==> now
                - cache.records[i].saved_at > cache.ttl,
    ensures
        cache.found(path, identity, one_file_system, now) is None,
{
    lemma_record_place(cache.records, path);
}

/// What is found was stored for the same path, the same entry and the same way
/// to treat other file systems, and no longer ago than the cache keeps it.
pub proof fn found_usage_was_stored(
    cache: CacheModel,
    path: Seq<u8>,
    identity: FileIdentity,
    one_file_system: bool,
    now: u64,
)
    requires
        cache.found(path, identity, one_file_system, now) is Some,
    ensures
        cache.enabled,
        exists|i: int|
            0 <= i < cache.records.len() && (#[trigger] cache.records[i]).path@ == path
                && cache.records[i].identity == identity && cache.records[i].one_file_system
                == one_file_system && cache.records[i].usage == cache.found(
                path,
                identity,
                one_file_system,
                now,
            )->0 && now <= cache.records[i].saved_at + cache.ttl,
{
    lemma_record_place(cache.records, path);
}

/// A record of a cache in use is found for its path and entry as long as it is
/// no older than the cache keeps it, to the second.
pub proof fn records_are_found_until_they_expire(cache: CacheModel, i: int, now: u64)
    requires
        cache.enabled,
        distinct_records(cache.records),
        0 <= i < cache.records.len(),
    ensures
        ({
            let record = cache.records[i];
            let found = cache.found(
                record.path@,
                record.identity,
                record.one_file_system,
                now,
            );
            &&& now <= record.saved_at + cache.ttl ==> found == Some(record.usage)
            &&& now > record.saved_at + cache.ttl ==> found is None
            &&& cache.found(
                record.path@,
                record.identity,
                !record.one_file_system,
                now,
            ) is None
            &&& forall|other: FileIdentity|
                other != record.identity ==> #[trigger] cache.found(
                    record.path@,
                    other,
                    record.one_file_system,
                    now,
                ) is None
        }),
{
    let path = cache.records[i].path@;
    lemma_record_place(cache.records, path);
    let place = record_place(cache.records, path);
    assert(place == i) by {
        if place < i {
            assert(cache.records[place].path@ == cache.records[i].path@);
        } else if i < place {
            assert(cache.records[i].path@ != path);
        }
    }
}

/// A cache that is not in use finds nothing and stores nothing.
pub proof fn an_unused_cache_is_left_alone(
    cache: CacheModel,
    path: FilePath,
    identity: FileIdentity,
    usage: UsageStats,
    one_file_system: bool,
    now: u64,
)
    requires
        !cache.enabled,
    ensures
        cache.found(path@, identity, one_file_system, now) is None,
        cache.with_usage(path, identity, usage, one_file_system, now) == cache,
        cache.without_subtree(path@) == cache,
        cache.without_path(path@) == cache,
{
}

/// At most 50,000 records are kept, all of them if there are no more, and none
/// that goes is newer than one that stays.
pub proof fn the_newest_records_are_kept(records: Seq<CacheRecord>, i: int, j: int)
    requires
        records.len() <= usize::MAX,
    ensures
        records.len() <= 50_000 ==> pruned(records) == records && latest(records).len()
            == records.len(),
        records.len() > 50_000 ==> pruned(records).len() == 50_000 && latest(records)
            == pruned(records),
        forall|k: int|
            0 <= k < pruned(records).len() ==> records.contains(#[trigger] pruned(records)[k]),
        0 <= i < j < latest(records).len() ==> latest(records)[i].saved_at >= latest(
            records,
        )[j].saved_at,
        0 <= i < pruned(records).len() && 0 <= j < records.len() && !pruned(records).contains(
            records[j],
        ) ==> pruned(records)[i].saved_at >= records[j].saved_at,
{
    let keys = age_keys(records);
    let sorted = order::sorted_by(records, keys);
    order::sorting_keeps_the_items(records, keys);
    order::stable_order_exists(keys);
    let kept = latest(records);
    assert forall|k: int| 0 <= k < kept.len() implies records.contains(#[trigger] kept[k]) by {
        assert(kept[k] == sorted[k]);
        assert(sorted.contains(sorted[k]));
    }
    if 0 <= i < j < kept.len() {
        lemma_newer_first(records, i, j);
    }
    if records.len() > 50_000 && 0 <= i < kept.len() && 0 <= j < records.len() && !kept.contains(
        records[j],
    ) {
        assert(records.contains(records[j]));
        assert(sorted.contains(records[j]));
        let place = choose|place: int| 0 <= place < sorted.len() && sorted[place] == records[j];
        if place < 50_000 {
            assert(kept[place] == records[j]);
        }
        lemma_newer_first(records, i, place);
    }
    if records.len() <= 50_000 {
        assert forall|k: int| 0 <= k < records.len() implies pruned(records).contains(
            #[trigger] records[k],
        ) by {
            assert(pruned(records)[k] == records[k]);
        }
        assert forall|k: int| 0 <= k < pruned(records).len() implies records.contains(
            #[trigger] pruned(records)[k],
        ) by {
            assert(records[k] == pruned(records)[k]);
        }
    }
}

proof fn lemma_newer_first(records: Seq<CacheRecord>, i: int, j: int)
    requires
        records.len() <= usize::MAX,
        0 <= i < j < records.len(),
    ensures
        order::sorted_by(records, age_keys(records))[i].saved_at >= order::sorted_by(
            records,
            age_keys(records),
        )[j].saved_at,
{
    let keys = age_keys(records);
    order::stable_order_exists(keys);
    order::sorting_orders_the_items(records, keys, i, j);
    let a = order::stable_order(keys)[i] as int;
    let b = order::stable_order(keys)[j] as int;
    assert(order::key_le(keys[a], keys[b]));
    assert(keys[a][0] <= keys[b][0]);
}

proof fn lemma_put_all_within(records: Seq<CacheRecord>, k: int)
    requires
        0 <= k < put_all(records).len(),
    ensures
        records.contains(put_all(records)[k]),
    decreases records.len(),
{
    let front = records.drop_last();
    let before = put_all(front);
    let taken = put_all(records)[k];
    lemma_record_place(before, records.last().path@);
    if k < before.len() && taken == before[k] {
        lemma_put_all_within(front, k);
        let i = choose|i: int| 0 <= i < front.len() && front[i] == taken;
        assert(records[i] == taken);
    } else {
        assert(records[records.len() - 1] == taken);
    }
}

/// What is read from a file of schema 1 was written in it, and is no older than
/// the cache keeps it.
pub proof fn read_records_are_fresh(ttl: u64, file: CacheFile, now: u64, k: int)
    requires
        file.records@.len() <= usize::MAX,
        0 <= k < stored_records(true, ttl, Some(Ok(file)), now).len(),
    ensures
        file.schema == 1,
        ({
            let record = stored_records(true, ttl, Some(Ok(file)), now)[k];
            &&& file.records@.contains(record)
            &&& now <= record.saved_at + ttl
        }),
{
    let chosen = file.records@.filter(fresh(ttl, now));
    let kept = latest(chosen);
    let record = stored_records(true, ttl, Some(Ok(file)), now)[k];
    lemma_put_all_within(kept, k);
    let i = choose|i: int| 0 <= i < kept.len() && kept[i] == record;
    file.records@.lemma_filter_len(fresh(ttl, now));
    order::sorting_keeps_the_items(chosen, age_keys(chosen));
    let sorted = order::sorted_by(chosen, age_keys(chosen));
    assert(sorted[i] == record);
    assert(sorted.contains(record));
    file.records@.lemma_filter_contains_rev(fresh(ttl, now), record);
    let at = choose|at: int| 0 <= at < chosen.len() && chosen[at] == record;
    file.records@.lemma_filter_pred(fresh(ttl, now), at);
}

/// Only a file of schema 1 is read; what cannot be used is reported.
pub proof fn only_the_first_schema_is_read(
    enabled: bool,
    ttl: u64,
    stored: Option<Result<CacheFile, String>>,
    now: u64,
)
    ensures
        !enabled ==> stored_records(enabled, ttl, stored, now).len() == 0 && load_warning(
            enabled,
            stored,
        ) is None,
        stored is None ==> stored_records(enabled, ttl, stored, now).len() == 0 && load_warning(
            enabled,
            stored,
        ) is None,
        stored is Some && stored->0 is Err ==> stored_records(enabled, ttl, stored, now).len() == 0
            && (enabled ==> load_warning(enabled, stored) is Some),
        stored is Some && stored->0 is Ok && stored->0->Ok_0.schema != 1 ==> stored_records(
            enabled,
            ttl,
            stored,
            now,
        ).len() == 0 && (enabled ==> load_warning(enabled, stored) is Some),
        stored is Some && stored->0 is Ok && stored->0->Ok_0.schema == 1 ==> load_warning(
            enabled,
            stored,
        ) is None,
{
}

/// Storing usage for a path spares what is stored for others, as long as nothing
/// has to go.
pub proof fn storing_spares_the_rest(
    cache: CacheModel,
    path: FilePath,
    identity: FileIdentity,
    usage: UsageStats,
    one_file_system: bool,
    saved: u64,
    i: int,
)
    requires
        cache.enabled,
        distinct_records(cache.records),
        cache.records.len() < 50_000,
        0 <= i < cache.records.len(),
        cache.records[i].path@ != path@,
    ensures
        ({
            let after = cache.with_usage(path, identity, usage, one_file_system, saved);
            &&& after.records.contains(cache.records[i])
            &&& after.dirty
            &&& after.records.len() <= cache.records.len() + 1
            &&& after.ttl == cache.ttl && after.enabled
        }),
{
    let record = CacheRecord { path, identity, usage, one_file_system, saved_at: saved };
    let place = record_place(cache.records, path@);
    lemma_record_place(cache.records, path@);
    let after = put(cache.records, record);
    assert(after[i] == cache.records[i]);
}

/// Forgetting one path takes its record out and spares the rest.
pub proof fn forgetting_a_path_spares_the_rest(cache: CacheModel, path: Seq<u8>, record: CacheRecord)
    requires
        cache.enabled,
    ensures
        cache.without_path(path).records.contains(record) <==> cache.records.contains(record)
            && record.path@ != path,
        cache.without_path(path).ttl == cache.ttl && cache.without_path(path).enabled,
{
    let keep = not_at(path);
    let kept = cache.records.filter(keep);
    lemma_record_place(cache.records, path);
    if record_place(cache.records, path) < cache.records.len() {
        if kept.contains(record) {
            cache.records.lemma_filter_contains_rev(keep, record);
            let k = choose|k: int| 0 <= k < kept.len() && kept[k] == record;
            cache.records.lemma_filter_pred(keep, k);
        }
        if cache.records.contains(record) && keep(record) {
            let k = choose|k: int| 0 <= k < cache.records.len() && cache.records[k] == record;
            cache.records.lemma_filter_contains(keep, k);
        }
    } else if cache.records.contains(record) {
        let k = choose|k: int| 0 <= k < cache.records.len() && cache.records[k] == record;
        assert(cache.records[k].path@ != path);
    }
}

} // verus!
