use macdirstat::cache::{CacheFile, CacheRecord, ScanCache, CACHE_SCHEMA, MAX_CACHE_ENTRIES};
use macdirstat::path::FilePath;
use macdirstat::tree::{FileIdentity, UsageStats};

fn path(text: &str) -> FilePath {
    FilePath::from_text(text)
}

fn identity(modified_seconds: i64) -> FileIdentity {
    FileIdentity { device: 1, inode: 2, modified_seconds, modified_nanoseconds: 3 }
}

fn empty(ttl: u64, now: u64) -> ScanCache {
    let (cache, warning) = ScanCache::load(path("/cache/cache.json"), true, ttl, None, now);
    assert!(warning.is_none());
    cache
}

fn reload(cache: &mut ScanCache, ttl: u64, now: u64) -> ScanCache {
    let file = cache.to_store().unwrap().unwrap();
    cache.stored();
    let (cache, warning) =
        ScanCache::load(path("/cache/cache.json"), true, ttl, Some(Ok(file)), now);
    assert!(warning.is_none());
    cache
}

#[test]
fn persists_hits_and_rejects_changed_identity() {
    let now = macdirstat::analytics::now_seconds();
    let directory = path("/tmp/example");
    let usage = UsageStats { logical: 10, physical: 16, files: 2 };
    let mut cache = empty(60, now);
    cache.insert(&directory, identity(4), usage, true);
    let cache = reload(&mut cache, 60, now);
    assert_eq!(cache.lookup(&directory, identity(4), true), Some(usage));
    assert_eq!(cache.lookup(&directory, identity(5), true), None);
}

#[test]
fn corrupt_cache_is_non_fatal() {
    let (cache, warning) = ScanCache::load(
        path("/cache/cache.json"),
        true,
        60,
        Some(Err("expected ident at line 1 column 2".to_owned())),
        100,
    );
    let warning = warning.unwrap();
    assert!(warning.contains("Ignoring unreadable"));
    assert_eq!(warning, "Ignoring unreadable scan cache: expected ident at line 1 column 2");
    assert_eq!(cache.lookup_at(&path("/a"), identity(1), true, 100), None);
}

#[test]
fn unsupported_schema_is_atomically_replaced() {
    let (mut cache, warning) = ScanCache::load(
        path("/cache/cache.json"),
        true,
        60,
        Some(Ok(CacheFile { schema: 999, records: Vec::new() })),
        100,
    );
    assert!(warning.unwrap().contains("unsupported schema"));

    cache.insert_at(&path("/replacement"), identity(4), UsageStats::default(), true, 100);
    let stored = cache.to_store().unwrap().unwrap();
    assert_eq!(stored.schema, CACHE_SCHEMA);
    assert_eq!(stored.records.len(), 1);
}

#[test]
fn preserves_non_utf8_paths() {
    let directory = FilePath::new(vec![b'/', b't', b'm', b'p', b'/', 0xff]);
    let usage = UsageStats { logical: 1, physical: 8, files: 1 };
    let mut cache = empty(60, 100);
    cache.insert_at(&directory, identity(4), usage, true, 100);
    let cache = reload(&mut cache, 60, 100);
    assert_eq!(cache.lookup_at(&directory, identity(4), true, 100), Some(usage));
    assert_eq!(cache.lookup_at(&path("/tmp/\u{fffd}"), identity(4), true, 100), None);
}

#[test]
fn subtree_invalidation_removes_only_descendants() {
    let now = macdirstat::analytics::now_seconds();
    let mut cache = empty(60, now);
    let usage = UsageStats::default();
    cache.insert(&path("/a/child"), identity(1), usage, true);
    cache.insert(&path("/b"), identity(1), usage, true);
    cache.invalidate_subtree(&path("/a"));
    assert!(cache.lookup(&path("/a/child"), identity(1), true).is_none());
    assert!(cache.lookup(&path("/b"), identity(1), true).is_some());
}

#[test]
fn expired_entries_are_not_returned() {
    let now = macdirstat::analytics::now_seconds();
    let mut cache = empty(1, now);
    let directory = path("/expired");
    cache.insert_at(&directory, identity(1), UsageStats::default(), true, now.saturating_sub(2));
    assert!(cache.lookup(&directory, identity(1), true).is_none());
}

#[test]
fn entries_last_to_the_end_of_their_time() {
    let mut cache = empty(60, 1_000);
    let directory = path("/a");
    let usage = UsageStats { logical: 3, physical: 4, files: 1 };
    cache.insert_at(&directory, identity(1), usage, true, 1_000);
    assert_eq!(cache.lookup_at(&directory, identity(1), true, 1_060), Some(usage));
    assert_eq!(cache.lookup_at(&directory, identity(1), true, 1_061), None);
    assert_eq!(cache.lookup_at(&directory, identity(1), false, 1_000), None);
}

#[test]
fn one_path_can_be_forgotten() {
    let mut cache = empty(60, 10);
    cache.insert_at(&path("/a"), identity(1), UsageStats::default(), true, 10);
    cache.insert_at(&path("/a/b"), identity(1), UsageStats::default(), true, 10);
    cache.invalidate_path(&path("/a"));
    assert!(cache.lookup_at(&path("/a"), identity(1), true, 10).is_none());
    assert!(cache.lookup_at(&path("/a/b"), identity(1), true, 10).is_some());
}

#[test]
fn nothing_is_written_without_need() {
    let mut cache = empty(60, 10);
    assert!(cache.to_store().unwrap().is_none());
    cache.insert_at(&path("/a"), identity(1), UsageStats::default(), true, 10);
    assert!(cache.to_store().unwrap().is_some());
    cache.stored();
    assert!(cache.to_store().unwrap().is_none());
    let (mut off, _) = ScanCache::load(path("/cache/cache.json"), false, 60, None, 10);
    off.insert_at(&path("/a"), identity(1), UsageStats::default(), true, 10);
    assert!(off.to_store().unwrap().is_none());
    assert!(off.lookup_at(&path("/a"), identity(1), true, 10).is_none());
}

#[test]
fn a_cache_needs_a_directory_to_lie_in() {
    let (mut cache, _) = ScanCache::load(path("/"), true, 60, None, 10);
    cache.insert_at(&path("/a"), identity(1), UsageStats::default(), true, 10);
    assert_eq!(cache.to_store().unwrap_err(), "Invalid cache path: /");
}

#[test]
fn of_two_stored_records_of_a_path_the_older_one_counts() {
    let record = |size: u64, saved_at: u64| CacheRecord {
        path: path("/a"),
        identity: identity(1),
        usage: UsageStats { logical: size, physical: size, files: 1 },
        one_file_system: true,
        saved_at,
    };
    let file = CacheFile { schema: CACHE_SCHEMA, records: vec![record(1, 5), record(2, 9)] };
    let (cache, _) = ScanCache::load(path("/c/cache.json"), true, 60, Some(Ok(file)), 10);
    let found = cache.lookup_at(&path("/a"), identity(1), true, 10).unwrap();
    assert_eq!(found.logical, 1);
}

#[test]
fn a_full_cache_gives_up_its_oldest_record() {
    let record = |number: usize, saved_at: u64| CacheRecord {
        path: path(&format!("/{number}")),
        identity: identity(1),
        usage: UsageStats { logical: 1, physical: 1, files: 1 },
        one_file_system: true,
        saved_at,
    };
    let mut records: Vec<CacheRecord> =
        (1..MAX_CACHE_ENTRIES).map(|number| record(number, 20)).collect();
    records.push(record(0, 10));
    let file = CacheFile { schema: CACHE_SCHEMA, records };
    let (mut cache, _) = ScanCache::load(path("/c/cache.json"), true, 60, Some(Ok(file)), 30);
    let usage = UsageStats { logical: 7, physical: 8, files: 9 };
    assert!(cache.lookup_at(&path("/0"), identity(1), true, 30).is_some());
    cache.insert_at(&path("/new"), identity(1), usage, true, 30);
    assert_eq!(cache.lookup_at(&path("/new"), identity(1), true, 30), Some(usage));
    assert_eq!(cache.lookup_at(&path("/0"), identity(1), true, 30), None);
    assert!(cache.lookup_at(&path("/1"), identity(1), true, 30).is_some());
    assert_eq!(cache.to_store().unwrap().unwrap().records.len(), MAX_CACHE_ENTRIES);
}

#[test]
fn what_was_stored_is_found_as_before() {
    let mut cache = empty(60, 100);
    let small = UsageStats { logical: 1, physical: 2, files: 3 };
    let large = UsageStats { logical: 10, physical: 20, files: 30 };
    cache.insert_at(&path("/a"), identity(1), small, true, 100);
    cache.insert_at(&path("/a/b"), identity(2), large, false, 110);
    let again = reload(&mut cache, 60, 120);
    for now in [120, 160, 161, 170, 171] {
        for name in ["/a", "/a/b", "/c"] {
            for stamp in [1, 2] {
                for one_file_system in [true, false] {
                    let found = |cache: &ScanCache| {
                        cache.lookup_at(&path(name), identity(stamp), one_file_system, now)
                    };
                    assert_eq!(found(&again), found(&cache));
                }
            }
        }
    }
    assert_eq!(again.lookup_at(&path("/a/b"), identity(2), false, 170), Some(large));
}
