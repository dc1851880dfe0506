use bootupd::metadata::{ContentMetadata, InstalledContent};
use bootupd::orchestrator::{apply_update, check_update, record_pending, UpdateDecision};
use bootupd::codec::encode_state;
use bootupd::parse::parse_state;
use bootupd::state::SavedState;
use bootupd::status::{status, ComponentUpdatable};
use bootupd::namemap::NameMap;

fn meta(version: &str, timestamp: u64) -> ContentMetadata {
    ContentMetadata { timestamp, version: version.to_string() }
}

fn one_component_state(version: &str, timestamp: u64) -> SavedState {
    let mut st = SavedState::new_empty();
    st.record_install("EFI".to_string(), meta(version, timestamp));
    st
}

#[test]
fn update_not_installed() {
    let st = SavedState::new_empty();
    let d = check_update(&st, &"EFI".to_string(), Some(&meta("2", 200)));
    assert_eq!(d, UpdateDecision::NotInstalled);
}

#[test]
fn no_op_when_no_candidate() {
    let st = one_component_state("1", 100);
    let before: String = encode_state(&st).iter().collect();
    let d = check_update(&st, &"EFI".to_string(), None);
    assert_eq!(d, UpdateDecision::AtLatestVersion);
    // the state machine recorded nothing, so a re-save writes identical bytes
    let after: String = encode_state(&st).iter().collect();
    assert_eq!(before, after);
}

#[test]
fn no_op_when_equal_version() {
    let st = one_component_state("1", 100);
    let d = check_update(&st, &"EFI".to_string(), Some(&meta("1", 100)));
    assert_eq!(d, UpdateDecision::AtLatestVersion);
}

#[test]
fn no_op_when_downgrade() {
    let st = one_component_state("2", 200);
    let d = check_update(&st, &"EFI".to_string(), Some(&meta("1", 100)));
    assert_eq!(d, UpdateDecision::AtLatestVersion);
}

#[test]
fn proceed_when_strictly_newer() {
    let st = one_component_state("1", 100);
    let d = check_update(&st, &"EFI".to_string(), Some(&meta("2", 200)));
    assert_eq!(d, UpdateDecision::Proceed);
}

#[test]
fn downgrade_commit_refused() {
    let mut st = one_component_state("2", 200);
    let before: String = encode_state(&st).iter().collect();
    let ok = apply_update(
        &mut st,
        &"EFI".to_string(),
        InstalledContent { meta: meta("1", 100) },
    );
    assert!(!ok);
    let after: String = encode_state(&st).iter().collect();
    assert_eq!(before, after);
}

#[test]
fn equal_version_commit_refused() {
    let mut st = one_component_state("2", 200);
    let ok = apply_update(
        &mut st,
        &"EFI".to_string(),
        InstalledContent { meta: meta("2", 200) },
    );
    assert!(!ok);
}

/// Component "EFI" installed at version "1"; candidate "2" is recorded as
/// pending, then the process dies before the payload mutation finishes.  The
/// next run must report the interruption, and a retried update that succeeds
/// must report previous "1", interrupted "2", new "2" and clear the record.
#[test]
fn interrupted_update_recovery() {
    let name = "EFI".to_string();
    let mut st = one_component_state("1", 100);
    let candidate = meta("2", 200);

    assert_eq!(check_update(&st, &name, Some(&candidate)), UpdateDecision::Proceed);
    let interrupted = record_pending(&mut st, &name, &candidate);
    assert!(interrupted.is_none());

    // the durability checkpoint: persist, crash, reload
    let bytes = encode_state(&st);
    let reloaded = parse_state(&bytes).expect("checkpoint must decode");

    // the next status run shows the interruption and the old version
    let queries: NameMap<Option<ContentMetadata>> = NameMap::new();
    let report = status(&Some(reloaded), &queries).expect("status");
    let entry = report.components.get(&name).expect("EFI entry");
    assert_eq!(entry.installed.version, "1");
    let warned = entry.interrupted.as_ref().expect("interruption visible");
    assert_eq!(warned.version, "2");

    // the retried update reports the earlier candidate as interrupted
    let bytes2 = encode_state(&st);
    let mut st2 = parse_state(&bytes2).expect("decode");
    assert_eq!(check_update(&st2, &name, Some(&candidate)), UpdateDecision::Proceed);
    let interrupted2 = record_pending(&mut st2, &name, &candidate);
    assert_eq!(interrupted2.expect("reported").version, "2");

    // the payload mutation succeeds and the commit clears the record
    let previous = st2.installed.get(&name).unwrap().meta.version.clone();
    let ok = apply_update(&mut st2, &name, InstalledContent { meta: meta("2", 200) });
    assert!(ok);
    assert_eq!(previous, "1");
    assert_eq!(st2.installed.get(&name).unwrap().meta.version, "2");
    let report2 = status(&Some(st2), &NameMap::new()).expect("status");
    let entry2 = report2.components.get(&name).expect("EFI entry");
    assert!(entry2.interrupted.is_none());
    assert_eq!(entry2.updatable, ComponentUpdatable::NoUpdateAvailable);
}
