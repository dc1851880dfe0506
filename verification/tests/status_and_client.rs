use bootupd::metadata::ContentMetadata;
use bootupd::client::{any_validation_errors, upgradable_components};
use bootupd::errors::UpdateError;
use bootupd::registry::{get_components, is_known, new_from_name, ValidationResult};
use bootupd::state::SavedState;
use bootupd::status::{status, validate, ComponentUpdatable};
use bootupd::namemap::NameMap;

fn meta(version: &str, timestamp: u64) -> ContentMetadata {
    ContentMetadata { timestamp, version: version.to_string() }
}

fn efi_state(version: &str, timestamp: u64) -> SavedState {
    let mut st = SavedState::new_empty();
    st.record_install("EFI".to_string(), meta(version, timestamp));
    st
}

fn queries_with(candidate: Option<ContentMetadata>) -> NameMap<Option<ContentMetadata>> {
    let mut q: NameMap<Option<ContentMetadata>> = NameMap::new();
    q.insert("EFI".to_string(), candidate);
    q
}

#[test]
fn registry_has_one_component() {
    let components = get_components();
    assert_eq!(components.len(), 1);
    assert_eq!(components[0].name(), "EFI");
}

#[test]
fn unknown_name_is_rejected() {
    assert!(is_known(&"EFI".to_string()));
    assert!(!is_known(&"BIOS".to_string()));
    let err = new_from_name(&"BIOS".to_string()).unwrap_err();
    assert!(matches!(err, UpdateError::UnknownComponent(_)));
    assert_eq!(err.message(), "No component found matching BIOS");
}

#[test]
fn status_of_absent_state_is_empty() {
    let report = status(&None, &NameMap::new()).expect("ok");
    assert_eq!(report.components.len(), 0);
}

#[test]
fn status_classifies_upgradable() {
    let st = efi_state("1", 100);
    let report = status(&Some(st), &queries_with(Some(meta("2", 200)))).expect("ok");
    let entry = report.components.get(&"EFI".to_string()).expect("entry");
    assert_eq!(entry.updatable, ComponentUpdatable::Upgradable);
    assert_eq!(entry.update.as_ref().expect("candidate").version, "2");
}

#[test]
fn status_classifies_at_latest_version() {
    let st = efi_state("1", 100);
    let report = status(&Some(st), &queries_with(Some(meta("1", 100)))).expect("ok");
    let entry = report.components.get(&"EFI".to_string()).expect("entry");
    assert_eq!(entry.updatable, ComponentUpdatable::AtLatestVersion);
}

#[test]
fn status_classifies_would_downgrade() {
    let st = efi_state("2", 200);
    let report = status(&Some(st), &queries_with(Some(meta("1", 100)))).expect("ok");
    let entry = report.components.get(&"EFI".to_string()).expect("entry");
    assert_eq!(entry.updatable, ComponentUpdatable::WouldDowngrade);
}

#[test]
fn status_classifies_no_update_available() {
    let st = efi_state("1", 100);
    let report = status(&Some(st), &queries_with(None)).expect("ok");
    let entry = report.components.get(&"EFI".to_string()).expect("entry");
    assert_eq!(entry.updatable, ComponentUpdatable::NoUpdateAvailable);
    assert!(entry.update.is_none());
}

#[test]
fn status_fails_on_unregistered_installed_name() {
    let mut st = SavedState::new_empty();
    st.record_install("BIOS".to_string(), meta("1", 100));
    let err = status(&Some(st), &NameMap::new()).unwrap_err();
    assert!(matches!(err, UpdateError::UnknownComponent(_)));
}

#[test]
fn validate_unknown_component() {
    let err = validate(&None, &"BIOS".to_string()).unwrap_err();
    assert!(matches!(err, UpdateError::UnknownComponent(_)));
}

#[test]
fn validate_not_installed() {
    let err = validate(&Some(SavedState::new_empty()), &"EFI".to_string()).unwrap_err();
    assert!(matches!(err, UpdateError::NotInstalled(_)));
    assert_eq!(err.message(), "Component EFI is not installed");
}

#[test]
fn validate_returns_installed_record() {
    let st = efi_state("1", 100);
    let content = validate(&Some(st), &"EFI".to_string()).expect("ok");
    assert_eq!(content.meta.version, "1");
    assert_eq!(content.meta.timestamp, 100);
}

#[test]
fn upgradable_filter_keeps_order() {
    let st = efi_state("1", 100);
    let report = status(&Some(st), &queries_with(Some(meta("2", 200)))).expect("ok");
    let names = upgradable_components(&report);
    assert_eq!(names, vec!["EFI".to_string()]);

    let st2 = efi_state("1", 100);
    let report2 = status(&Some(st2), &queries_with(None)).expect("ok");
    assert!(upgradable_components(&report2).is_empty());
}

#[test]
fn validation_error_aggregation() {
    assert!(!any_validation_errors(&vec![]));
    assert!(!any_validation_errors(&vec![ValidationResult::Valid]));
    assert!(any_validation_errors(&vec![
        ValidationResult::Valid,
        ValidationResult::Errors(vec!["bad digest".to_string()]),
    ]));
}

#[test]
fn upgrade_ordering_is_strict() {
    let m1 = meta("1", 100);
    assert!(!m1.can_upgrade_to(&meta("1", 100)));
    assert!(!m1.can_upgrade_to(&meta("2", 100)));
    assert!(!m1.can_upgrade_to(&meta("1", 200)));
    assert!(m1.can_upgrade_to(&meta("2", 200)));
    assert!(!meta("2", 200).can_upgrade_to(&m1));
}
