//! Epoch parsing.

use reposcrape::Epoch;
use reposcrape::EpochError;

#[test]
fn test_rfc3339_parses_to_millis() {
    // 2021-06-14T08:19:26Z in milliseconds since the epoch.
    let e = Epoch::from_rfc3339("2021-06-14T08:19:26Z").unwrap();
    assert_eq!(e, 1623658766000);
    // Later dates map to later epochs.
    let later = Epoch::from_rfc3339("2021-06-14T08:19:27Z").unwrap();
    assert_eq!(later, e + 1000);
}

#[test]
fn test_rfc3339_rejects_malformed() {
    assert_eq!(Epoch::from_rfc3339("not a date"), Err(EpochError::Malformed));
    assert_eq!(Epoch::from_rfc3339(""), Err(EpochError::Malformed));
    assert_eq!(Epoch::from_rfc3339("2021-06-14"), Err(EpochError::Malformed));
}

#[test]
fn test_rfc3339_rejects_pre_epoch() {
    assert_eq!(
        Epoch::from_rfc3339("1961-04-12T06:07:00Z"),
        Err(EpochError::BeforeEpoch)
    );
}
