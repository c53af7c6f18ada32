//! Aggregation: drain, conflict resolution, collapse, partition.

use reposcrape::unmatched_urls;
use reposcrape::Cachable;
use reposcrape::Epoch;
use reposcrape::ExpandedRepoCache;
use reposcrape::Repo;
use reposcrape::RepoDetails;
use reposcrape::RepoScrapeCache;
use reposcrape::RepoSet;

fn bare_details() -> RepoDetails {
    RepoDetails {
        project: None,
        main: None,
        title: None,
        font: None,
        color: None,
        keywords: None,
        languages: None,
        technology: None,
        children: None,
        status: None,
        description: None,
    }
}

fn record(uid_id: &str, name: &str, last_update: u64, details: Option<RepoDetails>) -> Repo {
    Repo {
        uid: format!("github/{}", uid_id),
        id: uid_id.into(),
        url: "".into(),
        name: name.into(),
        owner: "Username0".into(),
        origin: "github".into(),
        last_sync: 0,
        last_update,
        details,
    }
}

fn three_record_cache() -> RepoScrapeCache {
    let mut repos = RepoSet::new();
    repos.insert(Repo {
        uid: "github/Username/Repo0".into(),
        id: "Username/Repo0".into(),
        url: "".into(),
        name: "Repo0".into(),
        owner: "Username0".into(),
        origin: "github".into(),
        last_sync: Epoch::from_rfc3339("2019-05-14T19:19:26Z").unwrap(),
        last_update: Epoch::from_rfc3339("2018-05-14T19:19:26Z").unwrap(),
        details: Some(RepoDetails {
            project: Some("Project0".into()),
            title: Some("Repo0-0".into()),
            font: Some(vec!["Arial".into(), "Helvetica".into()]),
            color: Some(Vec::new()),
            keywords: Some(vec!["key0".into(), "yek1".into()]),
            description: Some("Description0".into()),
            languages: Some(vec!["rust".into(), "C++".into()]),
            technology: Some(vec!["GH Actions".into(), "https".into()]),
            status: Some("Work In Progress".into()),
            main: Some("".into()),
            children: None,
        }),
    });
    repos.insert(Repo {
        uid: "github/Username/Repo1".into(),
        id: "Username/Repo1".into(),
        url: "".into(),
        name: "Repo1".into(),
        owner: "Username1".into(),
        origin: "github".into(),
        last_sync: Epoch::from_rfc3339("2021-06-14T08:19:26Z").unwrap(),
        last_update: Epoch::from_rfc3339("2020-05-14T08:19:26Z").unwrap(),
        details: Some(RepoDetails {
            project: Some("Project0".into()),
            title: Some("Repo1-0".into()),
            font: Some(vec!["Times new roman".into()]),
            color: Some(Vec::new()),
            keywords: Some(vec!["key2".into(), "yek3".into()]),
            description: Some("Description1".into()),
            languages: Some(vec!["C++".into()]),
            technology: Some(vec!["https".into()]),
            status: Some("Archive".into()),
            main: Some("this".into()),
            children: None,
        }),
    });
    repos.insert(Repo {
        uid: "github/Username/Repo2".into(),
        id: "Username/Repo2".into(),
        url: "".into(),
        name: "Repo2".into(),
        owner: "Username0".into(),
        origin: "github".into(),
        last_sync: Epoch::from_rfc3339("2021-06-14T08:19:26Z").unwrap(),
        last_update: Epoch::from_rfc3339("2020-10-12T08:19:26Z").unwrap(),
        details: Some(RepoDetails {
            project: Some("Project1".into()),
            title: Some("Repo2-1".into()),
            font: Some(vec!["Arial".into()]),
            color: Some(Vec::new()),
            keywords: Some(vec!["key0".into(), "yek3".into()]),
            description: Some("Description2 😎".into()),
            languages: Some(vec!["C".into()]),
            technology: Some(vec!["tech2".into()]),
            status: Some("Work In Progress".into()),
            main: None,
            children: None,
        }),
    });
    RepoScrapeCache::new(
        Some(Cachable { data: repos, days_to_update: 0, last_update: 0 }),
        None,
    )
}

#[test]
fn test_expand_cache() {
    let dummy_cache = three_record_cache();
    let expanded_cache = ExpandedRepoCache::new(dummy_cache);

    assert!(expanded_cache.repos.len() == 1);
    assert!(expanded_cache.projects.len() == 1);
}

#[test]
fn test_aggregate_idempotent() {
    // Bit-identical input aggregates to bit-identical output: two runs over
    // equally built caches agree.
    let a = ExpandedRepoCache::new(three_record_cache());
    let b = ExpandedRepoCache::new(three_record_cache());
    assert_eq!(a, b);
}

#[test]
fn test_conflict_resolution() {
    // A carries an explicit main marker and the later update stamp, so it is
    // drained first; B's name equals the project name, making B a main
    // candidate too, but the resident explicit marker wins and B is demoted
    // into the subs.
    let mut details_a = bare_details();
    details_a.project = Some("P".into());
    details_a.main = Some("yes".into());
    let mut details_b = bare_details();
    details_b.project = Some("P".into());
    details_b.title = Some("P".into());

    let a = record("Username/A", "A", 200, Some(details_a));
    let b = record("Username/B", "B", 100, Some(details_b));
    let a_uid = a.uid.clone();
    let b_uid = b.uid.clone();

    let mut repos = RepoSet::new();
    repos.insert(a);
    repos.insert(b);
    let cache = RepoScrapeCache::new(
        Some(Cachable { data: repos, days_to_update: 0, last_update: 0 }),
        None,
    );
    let view = ExpandedRepoCache::new(cache);
    assert_eq!(view.repos.len(), 0);
    assert_eq!(view.projects.len(), 1);
    let p = view.projects.get("P").unwrap();
    assert_eq!(p.repo_main.as_ref().unwrap().uid, a_uid);
    assert_eq!(p.repo_sub.len(), 1);
    assert_eq!(p.repo_sub.get(0).uid, b_uid);
}

#[test]
fn test_takeover_without_marker() {
    // The resident main holds its place only by name; a later-drained
    // explicit marker takes over and the resident is demoted into the subs.
    let mut details_c = bare_details();
    details_c.project = Some("P".into());
    details_c.title = Some("P".into());
    let mut details_d = bare_details();
    details_d.project = Some("P".into());
    details_d.main = Some("yes".into());

    let c = record("Username/C", "C", 300, Some(details_c));
    let d = record("Username/D", "D", 100, Some(details_d));
    let c_uid = c.uid.clone();
    let d_uid = d.uid.clone();

    let mut repos = RepoSet::new();
    repos.insert(c);
    repos.insert(d);
    let cache = RepoScrapeCache::new(
        Some(Cachable { data: repos, days_to_update: 0, last_update: 0 }),
        None,
    );
    let view = ExpandedRepoCache::new(cache);
    let p = view.projects.get("P").unwrap();
    assert_eq!(p.repo_main.as_ref().unwrap().uid, d_uid);
    assert_eq!(p.repo_sub.len(), 1);
    assert_eq!(p.repo_sub.get(0).uid, c_uid);
}

#[test]
fn test_collapse_scenario() {
    // A single record that is its own main: the project dissolves and the
    // record lands in the flat map under its identity.
    let mut details_c = bare_details();
    details_c.project = Some("Solo".into());
    details_c.title = Some("Solo".into());
    let c = record("Username/C", "C", 50, Some(details_c.clone()));
    let c_uid = c.uid.clone();

    let mut repos = RepoSet::new();
    repos.insert(c);
    let cache = RepoScrapeCache::new(
        Some(Cachable { data: repos, days_to_update: 0, last_update: 0 }),
        None,
    );
    let view = ExpandedRepoCache::new(cache);
    assert!(view.projects.get("Solo").is_none());
    assert_eq!(view.projects.len(), 0);
    let found = view.repos.get(&c_uid).unwrap();
    assert_eq!(found.uid, c_uid);
    assert_eq!(found.details, Some(details_c));
}

#[test]
fn test_partition_no_record_lost_or_doubled() {
    // Every input identity shows up exactly once across the flat map and
    // the projects.
    let view = ExpandedRepoCache::new(three_record_cache());
    let mut seen: Vec<String> = Vec::new();
    for i in 0..view.repos.len() {
        seen.push(view.repos.at(i).uid.clone());
    }
    for i in 0..view.projects.len() {
        let p = view.projects.at(i);
        if let Some(m) = &p.repo_main {
            seen.push(m.uid.clone());
        }
        for j in 0..p.repo_sub.len() {
            seen.push(p.repo_sub.get(j).uid.clone());
        }
    }
    seen.sort();
    let mut expected = vec![
        String::from("github/Username/Repo0"),
        String::from("github/Username/Repo1"),
        String::from("github/Username/Repo2"),
    ];
    expected.sort();
    assert_eq!(seen, expected);
}

#[test]
fn test_no_degenerate_project_survives() {
    // Projects with exactly one member never survive aggregation.
    let view = ExpandedRepoCache::new(three_record_cache());
    for i in 0..view.projects.len() {
        let p = view.projects.at(i);
        let members = (p.repo_main.is_some() as usize) + p.repo_sub.len();
        assert_ne!(members, 1);
    }
}

#[test]
fn test_children_to_check() {
    let mut details_main = bare_details();
    details_main.project = Some("P".into());
    details_main.main = Some("yes".into());
    details_main.children = Some("https://github.com/u/one\nhttps://github.com/u/two".into());
    let mut details_sub = bare_details();
    details_sub.project = Some("P".into());

    let m = record("u/main", "Main", 300, Some(details_main));
    let s = record("u/one", "One", 100, Some(details_sub));
    let mut repos = RepoSet::new();
    repos.insert(m);
    repos.insert(s);
    let cache = RepoScrapeCache::new(
        Some(Cachable { data: repos, days_to_update: 0, last_update: 0 }),
        None,
    );
    let view = ExpandedRepoCache::new(cache);
    let p = view.projects.get("P").unwrap();
    // Two declared children against one sub: reconciliation is wanted.
    let urls = p.children_to_check().unwrap();
    assert_eq!(
        urls,
        vec![
            String::from("https://github.com/u/one"),
            String::from("https://github.com/u/two"),
        ]
    );
}

#[test]
fn test_unmatched_urls() {
    let subs = vec![String::from("https://a.example/x"), String::from("https://b.example/y")];
    let children = vec![
        String::from("https://b.example/y"),
        String::from("https://c.example/z"),
    ];
    let missing = unmatched_urls(&subs, &children);
    assert_eq!(missing, vec![String::from("https://c.example/z")]);
}

#[test]
fn test_detail_less_record_goes_flat() {
    let plain = record("u/plain", "Plain", 5, None);
    let uid = plain.uid.clone();
    let mut repos = RepoSet::new();
    repos.insert(plain);
    let cache = RepoScrapeCache::new(
        Some(Cachable { data: repos, days_to_update: 0, last_update: 0 }),
        None,
    );
    let view = ExpandedRepoCache::new(cache);
    assert_eq!(view.projects.len(), 0);
    assert_eq!(view.repos.len(), 1);
    assert_eq!(view.repos.get(&uid).unwrap().name, "Plain");
}

#[test]
fn test_main_description_wins() {
    // The winning main donates its description, even overwriting with
    // absence.
    let mut details_main = bare_details();
    details_main.project = Some("P".into());
    details_main.main = Some("yes".into());
    details_main.description = Some("the main one".into());
    let mut details_sub = bare_details();
    details_sub.project = Some("P".into());

    let m = record("u/main", "Main", 10, Some(details_main));
    let s = record("u/other", "Other", 999, Some(details_sub));
    let mut repos = RepoSet::new();
    repos.insert(m);
    repos.insert(s);
    let cache = RepoScrapeCache::new(
        Some(Cachable { data: repos, days_to_update: 0, last_update: 0 }),
        None,
    );
    let view = ExpandedRepoCache::new(cache);
    let p = view.projects.get("P").unwrap();
    assert_eq!(p.description, Some(String::from("the main one")));
    assert_eq!(p.repo_main.as_ref().unwrap().name, "Main");
}

#[test]
fn test_dissolved_project_keeps_child_checks() {
    // A main-only project with declared children dissolves, but its child
    // links are still handed out for reconciliation, gathered before the
    // dissolve as the aggregation order asks.
    let mut details_main = bare_details();
    details_main.project = Some("Solo".into());
    details_main.main = Some("yes".into());
    details_main.children = Some("https://github.com/u/one\nhttps://github.com/u/two".into());
    let m = record("u/solo", "Solo", 10, Some(details_main));
    let m_uid = m.uid.clone();

    let mut repos = RepoSet::new();
    repos.insert(m);
    let cache = RepoScrapeCache::new(
        Some(Cachable { data: repos, days_to_update: 0, last_update: 0 }),
        None,
    );
    let view = ExpandedRepoCache::new(cache);
    assert_eq!(view.projects.len(), 0);
    assert!(view.repos.get(&m_uid).is_some());
    assert_eq!(
        view.dissolved_children,
        vec![(
            String::from("Solo"),
            vec![
                String::from("https://github.com/u/one"),
                String::from("https://github.com/u/two"),
            ],
        )]
    );
}

#[test]
fn test_surviving_projects_raise_no_dissolved_checks() {
    let view = ExpandedRepoCache::new(three_record_cache());
    assert!(view.dissolved_children.is_empty());
}
