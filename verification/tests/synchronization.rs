use lyric_sync::sync::SyncState;
use lyric_sync::track::{changed, TrackIdentity};

fn identity(title: &str, track_id: &str) -> TrackIdentity {
    TrackIdentity { title: String::from(title), track_id: String::from(track_id) }
}

#[test]
fn identical_pairs_never_signal_a_change() {
    let a = identity("Song A", "id1");
    let b = identity("Song A", "id1");
    assert!(!changed(&a, &b));
}

#[test]
fn any_single_differing_field_signals_a_change() {
    let base = identity("Song A", "id1");
    assert!(changed(&base, &identity("Song B", "id1")));
    assert!(changed(&base, &identity("Song A", "id2")));
    assert!(changed(&base, &identity("Song B", "id2")));
}

#[test]
fn empty_fields_compare_like_any_other_value() {
    let blank = identity("", "");
    assert!(!changed(&blank, &identity("", "")));
    assert!(changed(&blank, &identity("x", "")));
}

#[test]
fn fresh_state_always_wants_a_refresh() {
    let state = SyncState::new();
    assert!(state.needs_refresh(&identity("Song A", "id1")));
    assert!(state.needs_refresh(&identity("", "")));
}

#[test]
fn steady_state_skips_refresh_until_identity_changes() {
    let mut state = SyncState::new();
    state.begin_track(identity("Song A", "id1"), Some("[0:00]Line one"));
    assert!(!state.needs_refresh(&identity("Song A", "id1")));
    assert!(state.needs_refresh(&identity("Song B", "id1")));
    assert!(state.needs_refresh(&identity("Song A", "id2")));
}

#[test]
fn full_cycle_scenario() {
    let mut state = SyncState::new();

    let first = identity("Song A", "id1");
    assert!(state.needs_refresh(&first));
    state.begin_track(first, Some("[0:00]Line one\n[0:10]Line two"));
    assert_eq!(state.current_line(Some("0:05")).unwrap().as_str(), "Line one");

    assert!(!state.needs_refresh(&identity("Song A", "id1")));
    assert_eq!(state.current_line(Some("0:12")).unwrap().as_str(), "Line two");

    let second = identity("Song B", "id2");
    assert!(state.needs_refresh(&second));
    state.begin_track(second, None);
    assert!(state.current_line(Some("0:15")).is_none());
    assert!(!state.needs_refresh(&identity("Song B", "id2")));
    assert!(state.current_line(Some("0:20")).is_none());
    assert!(state.current_line(Some("3:00")).is_none());
}

#[test]
fn missing_or_malformed_position_shows_no_line() {
    let mut state = SyncState::new();
    state.begin_track(identity("Song A", "id1"), Some("[0:00]Line one"));
    assert!(state.current_line(None).is_none());
    assert!(state.current_line(Some("")).is_none());
    assert!(state.current_line(Some("abc")).is_none());
    assert!(state.current_line(Some("1:2:3")).is_none());
    assert_eq!(state.current_line(Some("0:30")).unwrap().as_str(), "Line one");
}

#[test]
fn refresh_discards_the_previous_index_entirely() {
    let mut state = SyncState::new();
    state.begin_track(identity("Song A", "id1"), Some("[0:00]old line"));
    state.begin_track(identity("Song B", "id2"), Some("[0:10]new line"));
    assert!(state.current_line(Some("0:05")).is_none());
    assert_eq!(state.current_line(Some("0:10")).unwrap().as_str(), "new line");
}
