//! TTL staleness and merge-on-update semantics.

use reposcrape::Cachable;
use reposcrape::Cache;
use reposcrape::Epoch;
use reposcrape::Repo;
use reposcrape::RepoScrapeCache;
use reposcrape::RepoSet;
use reposcrape::StrMap;
use reposcrape::Update;

fn record(uid_id: &str, name: &str, last_update: u64) -> Repo {
    Repo {
        uid: format!("github/{}", uid_id),
        id: uid_id.into(),
        url: "".into(),
        name: name.into(),
        owner: "Username0".into(),
        origin: "github".into(),
        last_sync: 7,
        last_update,
        details: None,
    }
}

#[test]
fn test_outdated_check() {
    // The staleness threshold is days_to_update * 86400 * 100 milliseconds,
    // with the trailing factor of 100 taken exactly as given.
    let now = Epoch::get_local();
    let stale: Cachable<RepoSet> = Cachable {
        data: RepoSet::new(),
        days_to_update: 1,
        last_update: now - 100 * 86400 * 1 - 1,
    };
    assert!(stale.is_outdated());
    let fresh: Cachable<RepoSet> = Cachable {
        data: RepoSet::new(),
        days_to_update: 1,
        last_update: now,
    };
    assert!(!fresh.is_outdated());
}

#[test]
fn test_outdated_at_boundary() {
    let c: Cachable<RepoSet> = Cachable {
        data: RepoSet::new(),
        days_to_update: 1,
        last_update: 1000,
    };
    let threshold: u64 = 86400 * 100;
    assert!(!c.is_outdated_at(1000 + threshold));
    assert!(c.is_outdated_at(1000 + threshold + 1));
    assert!(!c.is_outdated_at(1000));
    assert!(!c.is_outdated_at(500));
}

#[test]
fn test_set_update_cached_records_win() {
    // On identity collision the record already cached survives, whatever the
    // incoming record's other fields hold.
    let mut cached_set = RepoSet::new();
    cached_set.insert(record("u/a", "CachedA", 10));
    let mut cachable = Cachable { data: cached_set, days_to_update: 14, last_update: 0 };

    let mut incoming = RepoSet::new();
    incoming.insert(record("u/a", "IncomingA", 99));
    incoming.insert(record("u/b", "B", 5));

    cachable.update(&incoming);
    assert_eq!(cachable.data.len(), 2);
    assert_eq!(cachable.days_to_update, 14);
    let mut names: Vec<String> = Vec::new();
    for i in 0..cachable.data.len() {
        names.push(cachable.data.get(i).name.clone());
    }
    names.sort();
    assert_eq!(names, vec![String::from("B"), String::from("CachedA")]);
}

#[test]
fn test_set_update_refreshes_stamp() {
    let mut cachable: Cachable<RepoSet> = Cachable {
        data: RepoSet::new(),
        days_to_update: 14,
        last_update: 0,
    };
    let incoming = RepoSet::new();
    let before = Epoch::get_local();
    cachable.update(&incoming);
    assert!(cachable.last_update >= before);
}

#[test]
fn test_map_update_keeps_stamp_and_cached_entries() {
    // The dictionary payload merges under cached-entry priority but, unlike
    // the record payload, deliberately keeps its stamp.
    let mut cached = StrMap::new();
    cached.insert("Rust".into(), "#dea584".into());
    let mut cachable = Cachable { data: cached, days_to_update: 60, last_update: 42 };

    let mut incoming = StrMap::new();
    incoming.insert("Rust".into(), "#ffffff".into());
    incoming.insert("C".into(), "#555555".into());

    cachable.update(&incoming);
    assert_eq!(cachable.last_update, 42);
    assert_eq!(cachable.days_to_update, 60);
    assert_eq!(cachable.data.len(), 2);
    assert_eq!(cachable.data.get("Rust").unwrap(), "#dea584");
    assert_eq!(cachable.data.get("C").unwrap(), "#555555");
}

#[test]
fn test_duplicate_identity_keeps_resident() {
    // Ordering considers more state than equality, so a record that differs
    // in every field except its identity is still treated as a duplicate:
    // only the resident survives insertion.
    let mut set = RepoSet::new();
    set.insert(record("u/a", "First", 10));
    set.insert(record("u/a", "Second", 999));
    assert_eq!(set.len(), 1);
    assert_eq!(set.get(0).name, "First");
}

#[test]
fn test_repo_set_orders_by_update_then_uid() {
    let mut set = RepoSet::new();
    set.insert(record("u/c", "C", 50));
    set.insert(record("u/a", "A", 50));
    set.insert(record("u/b", "B", 10));
    assert_eq!(set.get(0).name, "B");
    assert_eq!(set.get(1).name, "A");
    assert_eq!(set.get(2).name, "C");
    let mut set = set;
    let top = set.pop_last().unwrap();
    assert_eq!(top.name, "C");
}

#[test]
fn test_cache_update_forwards_to_records() {
    let mut cache = Cache::new(None, None);
    let mut incoming = RepoSet::new();
    incoming.insert(record("u/a", "A", 1));
    cache.update(&incoming);
    assert!(!cache.is_empty());
    assert_eq!(cache.repos.data.len(), 1);
    assert_eq!(cache.colors.data.len(), 0);
}

#[test]
fn test_default_ttls() {
    // Only the default value carries the shipped TTLs; building from
    // missing parts yields bare zeroed wrappers, and the two are not
    // interchangeable.
    let c = RepoScrapeCache::default();
    assert!(c.is_empty());
    assert_eq!(c.repos.days_to_update, 14);
    assert_eq!(c.colors.days_to_update, 60);
    let built = RepoScrapeCache::new(None, None);
    assert!(built.is_empty());
    assert_eq!(built.repos.days_to_update, 0);
    assert_eq!(built.colors.days_to_update, 0);
    assert_ne!(built, c);
}
