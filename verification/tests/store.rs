//! The blob codec: encode, decode, and their failure modes.

use reposcrape::BinCache;
use reposcrape::Cachable;
use reposcrape::Cache;
use reposcrape::DecodeError;
use reposcrape::Epoch;
use reposcrape::Repo;
use reposcrape::RepoDetails;
use reposcrape::RepoSet;
use reposcrape::StrMap;
use std::io::Write;

fn sample_repos() -> RepoSet {
    let mut repos = RepoSet::new();
    repos.insert(Repo {
        uid: "github/Username/Repo0".into(),
        id: "Username/Repo0".into(),
        url: "".into(),
        name: "Repo0".into(),
        owner: "Username0".into(),
        origin: "github".into(),
        last_sync: Epoch::from_rfc3339("2019-05-14T19:19:26Z").unwrap(),
        last_update: Epoch::from_rfc3339("2018-05-14T19:19:26Z").unwrap(),
        details: Some(RepoDetails {
            project: Some("Project0".into()),
            title: Some("Repo0-0".into()),
            font: Some(vec!["Arial".into(), "Helvetica".into()]),
            color: Some(Vec::new()),
            keywords: Some(vec!["key0".into(), "yek1".into()]),
            description: Some("Description0".into()),
            languages: Some(vec!["rust".into(), "C++".into()]),
            technology: Some(vec!["GH Actions".into(), "https".into()]),
            status: Some("Work In Progress".into()),
            main: Some("".into()),
            children: None,
        }),
    });
    repos.insert(Repo {
        uid: "github/Username/Repo1".into(),
        id: "Username/Repo1".into(),
        url: "".into(),
        name: "Repo1".into(),
        owner: "Username1".into(),
        origin: "github".into(),
        last_sync: Epoch::from_rfc3339("2021-06-14T08:19:26Z").unwrap(),
        last_update: Epoch::from_rfc3339("2020-05-14T08:19:26Z").unwrap(),
        details: Some(RepoDetails {
            project: Some("Project0".into()),
            title: Some("Repo1-0".into()),
            font: Some(vec!["Times new roman".into()]),
            color: Some(Vec::new()),
            keywords: Some(vec!["key2".into(), "yek3".into()]),
            description: Some("Description1".into()),
            languages: Some(vec!["C++".into()]),
            technology: Some(vec!["https".into()]),
            status: Some("Archive".into()),
            main: Some("this".into()),
            children: None,
        }),
    });
    repos.insert(Repo {
        uid: "github/Username/Repo2".into(),
        id: "Username/Repo2".into(),
        url: "".into(),
        name: "Repo2".into(),
        owner: "Username0".into(),
        origin: "github".into(),
        last_sync: Epoch::from_rfc3339("2021-06-14T08:19:26Z").unwrap(),
        last_update: Epoch::from_rfc3339("2020-10-12T08:19:26Z").unwrap(),
        details: Some(RepoDetails {
            project: Some("Project1".into()),
            title: Some("Repo2-1".into()),
            font: Some(vec!["Arial".into()]),
            color: Some(Vec::new()),
            keywords: Some(vec!["key0".into(), "yek3".into()]),
            description: Some("Description2 😎".into()),
            languages: Some(vec!["C".into()]),
            technology: Some(vec!["tech2".into()]),
            status: Some("Work In Progress".into()),
            main: None,
            children: None,
        }),
    });
    repos
}

#[test]
fn test_cache_encode_decode() {
    let dummy_load_start = Cache::new(
        Some(Cachable { data: sample_repos(), days_to_update: 0, last_update: 0 }),
        None,
    );

    let dump = dummy_load_start.encode().unwrap();

    let dummy_load_end = Cache::decode(&dump).unwrap();

    assert!(dummy_load_end == dummy_load_start);
}

#[test]
fn test_cache_encode_decode_with_colors() {
    let mut colors = StrMap::new();
    colors.insert("Rust".into(), "#dea584".into());
    colors.insert("C".into(), "#555555".into());
    let start = Cache::new(
        Some(Cachable { data: sample_repos(), days_to_update: 14, last_update: 123456 }),
        Some(Cachable { data: colors, days_to_update: 60, last_update: 99 }),
    );
    let blob = start.encode().unwrap();
    let end = Cache::decode(&blob).unwrap();
    assert_eq!(end, start);
    assert_eq!(end.colors.days_to_update, 60);
    assert_eq!(end.colors.last_update, 99);
    assert_eq!(end.colors.data.get("Rust").unwrap(), "#dea584");
}

#[test]
fn test_bincache_encode_decode() {
    let dummy_load_start = BinCache::new(sample_repos());

    let dump = dummy_load_start.dump().unwrap();

    let dummy_load_end = BinCache::load(&dump).unwrap();

    assert!(dummy_load_end == dummy_load_start);
}

#[test]
fn test_decode_rejects_garbage() {
    // Not a zlib stream at all.
    assert_eq!(Cache::decode(&[1, 2, 3, 4]), Err(DecodeError::Decompression));
    // A valid zlib stream whose contents are no cache encoding.
    let mut enc = flate2::write::ZlibEncoder::new(Vec::new(), flate2::Compression::default());
    enc.write_all(b"junk that is no cache").unwrap();
    let blob = enc.finish().unwrap();
    assert_eq!(Cache::decode(&blob), Err(DecodeError::Malformed));
    assert_eq!(
        BinCache::load(&[9, 9, 9]),
        Err(DecodeError::Decompression)
    );
}

#[test]
fn test_decode_empty_cache() {
    let empty = Cache::new(None, None);
    let blob = empty.encode().unwrap();
    let back = Cache::decode(&blob).unwrap();
    assert!(back.is_empty());
    assert_eq!(back, Cache::new(None, None));
}
