//! Record construction and the field coercion cascade.

use reposcrape::Epoch;
use reposcrape::Metadata;
use reposcrape::Repo;
use reposcrape::RepoDetails;
use reposcrape::StrMap;

fn meta(pairs: &[(&str, &str)]) -> StrMap {
    let mut m = StrMap::new();
    for (k, v) in pairs {
        m.insert(String::from(*k), String::from(*v));
    }
    m
}

#[test]
fn test_repo_create() {
    let metadata = meta(&[]);

    let r0 = Repo::new(
        "test".into(),
        "".into(),
        "bru".into(),
        "oof".into(),
        "okay".into(),
        Epoch::from_rfc3339("2019-06-14T08:19:26Z").unwrap(),
        Epoch::from_rfc3339("2019-06-14T08:19:26Z").unwrap(),
        &metadata,
    );

    assert!(r0.details == None);

    let metadata = meta(&[
        ("project", "pablo"),
        ("TItle", "hello"),
        ("color", "#05c3a8,#AAFFa8, potato, AAc4, 256, 100000000,#100000000"),
        ("keyWords", ""),
        ("FONT", "IBM, Arial,"),
        ("invalid", "huh"),
    ]);

    let r1 = Repo::new(
        "".into(),
        "".into(),
        "".into(),
        "".into(),
        "".into(),
        Epoch::from_rfc3339("2021-06-14T08:19:26Z").unwrap(),
        Epoch::from_rfc3339("2021-06-14T08:19:26Z").unwrap(),
        &metadata,
    );

    assert!(&r1.details != &None);
    let details = &r1.details.unwrap();
    assert!(details.project == Some("pablo".into()));
    assert!(details.title == Some("hello".into()));
    assert!(details.color.clone().unwrap().len() == 5);

    let metadata = meta(&[
        ("project", "pablo"),
        ("TItle", "hello"),
        ("color", "45"),
        ("keyWords", "huh, keyor,bruh"),
        ("FONT", "IBM, Arial,"),
        ("invalid", "huh"),
        ("languages", "reust"),
        ("status", "oops!, all, array, 😂"),
        ("description", ""),
    ]);

    let r2 = Repo::new(
        "fff".into(),
        "".into(),
        "35".into(),
        "atw".into(),
        "gadd".into(),
        Epoch::from_rfc3339("2020-06-14T08:19:26Z").unwrap(),
        Epoch::from_rfc3339("2020-06-14T08:19:26Z").unwrap(),
        &metadata,
    );

    let details = &r2.details.unwrap();
    assert!(details.project == Some("pablo".into()));
    assert!(details.title == Some("hello".into()));
    assert!(details.keywords.clone().unwrap().len() == 3);
    assert!(details.color.clone().unwrap().len() == 1);
    assert!(details.languages.clone().unwrap() == vec!["reust"]);
    assert!(details.status == Some("oops!, all, array, 😂".into()));
    assert!(details.description.clone().unwrap().is_empty());
}

#[test]
fn test_uid_is_origin_slash_id() {
    let m = meta(&[]);
    let r = Repo::new(
        "Username/Repo0".into(),
        "".into(),
        "Repo0".into(),
        "Username0".into(),
        "github".into(),
        0,
        0,
        &m,
    );
    assert_eq!(r.uid, "github/Username/Repo0");
}

#[test]
fn test_cascade_color_parsing() {
    let mut d = RepoDetails::default();
    assert!(d.set("color", "#05c3a8,#AAFFa8, potato, AAc4, 256, 100000000,#100000000"));
    assert_eq!(
        d.color,
        Some(vec![0x05c3a8, 0xAAFFa8, 0xAAc4, 256, 100000000])
    );
    // A nine-digit hexadecimal value overflows 32 bits and is dropped; with
    // every token unreadable the field stays unset.
    let mut d2 = RepoDetails::default();
    assert!(!d2.set("color", "potato,#100000000"));
    assert_eq!(d2.color, None);
}

#[test]
fn test_cascade_unknown_key_fails() {
    let mut d = RepoDetails::default();
    assert!(!d.set("invalid", "huh"));
    assert_eq!(d, RepoDetails::default());
}

#[test]
fn test_cascade_list_trimming() {
    let mut d = RepoDetails::default();
    assert!(d.set("FONT", "IBM, Arial,"));
    assert_eq!(d.font, Some(vec![String::from("IBM"), String::from("Arial")]));
}

#[test]
fn test_extraction_scenario() {
    // The extraction scenario: three annotations, five readable color
    // tokens; `potato` and the nine-digit hexadecimal overflow are dropped,
    // while `AAc4`, `256` and `100000000` parse as hexadecimal or decimal.
    let text = "# heading\n<!-- PROJECT: pablo -->\n<!-- TItle: hello -->\n<!-- color: #05c3a8,#AAFFa8, potato, AAc4, 256, 100000000,#100000000 -->\n";
    let m = Metadata::extract(text);
    let r = Repo::new(
        "Username/Repo0".into(),
        "".into(),
        "Repo0".into(),
        "Username0".into(),
        "github".into(),
        0,
        0,
        &m,
    );
    let details = r.details.unwrap();
    assert_eq!(details.project, Some("pablo".into()));
    assert_eq!(details.title, Some("hello".into()));
    assert_eq!(details.color.clone().unwrap().len(), 5);
    assert_eq!(
        details.color.unwrap(),
        vec![0x05c3a8, 0xAAFFa8, 0xAAc4, 256, 100000000]
    );
}
