use system_i2::runtime::service::{load_runtime_status, format_runtime_status_error, normalize_bundle_dir, UserConfigLookup};
use system_i2::runtime::status::RuntimeStatusSource;

#[test]
fn reports_not_configured_when_user_config_is_missing() {
    let status = load_runtime_status(UserConfigLookup::NotFound, None);

    assert!(!status.is_ready);
    assert_eq!(status.source, RuntimeStatusSource::Unconfigured);
    assert!(status.missing.is_empty());
    assert!(status
        .invalid
        .contains(&"runtime bundle is not configured; complete first-run setup".to_string()));
}

#[test]
fn formats_not_ready_status_and_trims_bundle_dirs() {
    let status = load_runtime_status(UserConfigLookup::PathFailed("no config dir".to_string()), None);
    assert_eq!(format_runtime_status_error(&status), "invalid: no config dir");
    assert_eq!(normalize_bundle_dir("  /data/bundle ").unwrap(), "/data/bundle");
    assert_eq!(normalize_bundle_dir("   ").unwrap_err(), "runtime bundle directory path is empty");
}
