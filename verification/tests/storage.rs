use sound_pad::models::CURRENT_VERSION;
use sound_pad::storage::{check_version, read_config_version, StorageError};

#[test]
fn rejects_config_from_a_future_version() {
    let json = r#"{"version": 999}"#;

    let result = read_config_version(json);

    assert!(matches!(result, Err(StorageError::FutureVersion { found: 999, current: CURRENT_VERSION })));
}

#[test]
fn rejects_corrupt_json_without_panicking() {
    let result = read_config_version("{ esto no es json valido");

    assert!(matches!(result, Err(StorageError::Parse(_))));
}

#[test]
fn accepts_the_current_version_and_treats_a_missing_one_as_zero() {
    assert!(matches!(read_config_version(r#"{"version": 1, "banks": []}"#), Ok(1)));
    assert!(matches!(read_config_version(r#"{"banks": []}"#), Ok(0)));
    assert!(matches!(read_config_version(r#"{"version": "1"}"#), Ok(0)));
}

#[test]
fn check_version_refuses_only_later_versions() {
    assert!(matches!(check_version(CURRENT_VERSION), Ok(v) if v == CURRENT_VERSION));
    assert!(matches!(check_version(CURRENT_VERSION + 1), Err(StorageError::FutureVersion { .. })));
}
