use bootupd::metadata::ContentMetadata;
use bootupd::codec::encode_state;
use bootupd::parse::parse_state;
use bootupd::state::SavedState;
use bootupd::namemap::NameMap;

fn meta(version: &str, timestamp: u64) -> ContentMetadata {
    ContentMetadata { timestamp, version: version.to_string() }
}

fn encode_to_string(st: &SavedState) -> String {
    encode_state(st).iter().collect()
}

fn parse_str(text: &str) -> Option<SavedState> {
    let chars: Vec<char> = text.chars().collect();
    parse_state(&chars)
}

fn assert_states_equal(a: &SavedState, b: &SavedState) {
    assert_eq!(a.installed.entries.len(), b.installed.entries.len());
    for (ea, eb) in a.installed.entries.iter().zip(b.installed.entries.iter()) {
        assert_eq!(ea.name, eb.name);
        assert_eq!(ea.value.meta.version, eb.value.meta.version);
        assert_eq!(ea.value.meta.timestamp, eb.value.meta.timestamp);
    }
    assert_eq!(a.pending.is_some(), b.pending.is_some());
    if let (Some(pa), Some(pb)) = (&a.pending, &b.pending) {
        assert_eq!(pa.entries.len(), pb.entries.len());
        for (ea, eb) in pa.entries.iter().zip(pb.entries.iter()) {
            assert_eq!(ea.name, eb.name);
            assert_eq!(ea.value.version, eb.value.version);
            assert_eq!(ea.value.timestamp, eb.value.timestamp);
        }
    }
}

#[test]
fn encode_exact_text() {
    let mut st = SavedState::new_empty();
    st.record_install("EFI".to_string(), meta("1.2", 1600000000));
    assert_eq!(
        encode_to_string(&st),
        "{\"installed\":{\"EFI\":{\"meta\":{\"timestamp\":1600000000,\"version\":\"1.2\"}}},\"pending\":null}"
    );
}

#[test]
fn encode_exact_text_with_pending() {
    let mut st = SavedState::new_empty();
    st.record_install("EFI".to_string(), meta("1", 7));
    let mut pending: NameMap<ContentMetadata> = NameMap::new();
    pending.insert("EFI".to_string(), meta("2", 9));
    st.pending = Some(pending);
    assert_eq!(
        encode_to_string(&st),
        "{\"installed\":{\"EFI\":{\"meta\":{\"timestamp\":7,\"version\":\"1\"}}},\"pending\":{\"EFI\":{\"timestamp\":9,\"version\":\"2\"}}}"
    );
}

#[test]
fn round_trip_empty_state() {
    let st = SavedState::new_empty();
    let back = parse_state(&encode_state(&st)).expect("decodes");
    assert_states_equal(&st, &back);
    assert!(back.pending.is_none());
}

#[test]
fn round_trip_pending_absent_vs_empty() {
    let mut absent = SavedState::new_empty();
    absent.record_install("EFI".to_string(), meta("1", 1));
    let back_absent = parse_state(&encode_state(&absent)).expect("decodes");
    assert!(back_absent.pending.is_none());

    let mut empty = SavedState::new_empty();
    empty.record_install("EFI".to_string(), meta("1", 1));
    empty.pending = Some(NameMap::new());
    let back_empty = parse_state(&encode_state(&empty)).expect("decodes");
    let p = back_empty.pending.as_ref().expect("still present");
    assert_eq!(p.entries.len(), 0);
}

#[test]
fn round_trip_full_state() {
    let mut st = SavedState::new_empty();
    st.record_install("EFI".to_string(), meta("grub2-03", 1610000000));
    st.record_install("BIOS".to_string(), meta("seabios-1.14", 1620000000));
    let mut pending: NameMap<ContentMetadata> = NameMap::new();
    pending.insert("EFI".to_string(), meta("grub2-04", 1630000000));
    st.pending = Some(pending);
    let back = parse_state(&encode_state(&st)).expect("decodes");
    assert_states_equal(&st, &back);
}

#[test]
fn round_trip_escaped_characters() {
    let mut st = SavedState::new_empty();
    st.record_install(
        "odd\"name\\here".to_string(),
        meta("ver\"si\\on", 42),
    );
    let back = parse_state(&encode_state(&st)).expect("decodes");
    assert_states_equal(&st, &back);
}

#[test]
fn round_trip_largest_timestamp() {
    let mut st = SavedState::new_empty();
    st.record_install("EFI".to_string(), meta("1", u64::MAX));
    let back = parse_state(&encode_state(&st)).expect("decodes");
    assert_eq!(back.installed.entries[0].value.meta.timestamp, u64::MAX);
}

#[test]
fn parse_rejects_garbage() {
    assert!(parse_str("").is_none());
    assert!(parse_str("not json at all").is_none());
    assert!(parse_str("{\"installed\":{").is_none());
}

#[test]
fn parse_rejects_truncated_file() {
    let mut st = SavedState::new_empty();
    st.record_install("EFI".to_string(), meta("1", 100));
    let full = encode_to_string(&st);
    let cut = &full[..full.len() - 2];
    assert!(parse_str(cut).is_none());
}

#[test]
fn parse_rejects_trailing_garbage() {
    let mut st = SavedState::new_empty();
    st.record_install("EFI".to_string(), meta("1", 100));
    let mut text = encode_to_string(&st);
    text.push_str("x");
    assert!(parse_str(&text).is_none());
}

#[test]
fn parse_rejects_duplicate_names() {
    let text = "{\"installed\":{\"EFI\":{\"meta\":{\"timestamp\":1,\"version\":\"1\"}},\"EFI\":{\"meta\":{\"timestamp\":2,\"version\":\"2\"}}},\"pending\":null}";
    assert!(parse_str(text).is_none());
}

#[test]
fn parse_rejects_oversized_timestamp() {
    let text = "{\"installed\":{\"EFI\":{\"meta\":{\"timestamp\":99999999999999999999,\"version\":\"1\"}}},\"pending\":null}";
    assert!(parse_str(text).is_none());
}
