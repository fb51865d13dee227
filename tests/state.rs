use music_index::clock::Timestamp;
use music_index::scanner::{EntryKind, Oddity, WalkEntry};
use music_index::state::State;

fn entry(parts: &[&[u8]], kind: EntryKind) -> WalkEntry {
    WalkEntry { path: parts.iter().map(|p| p.to_vec()).collect(), kind }
}

#[test]
fn published_index_replaces_previous() {
    let mut state = State::new();
    assert!(state.music_list().is_empty());
    let reports = state.update_music_index(&vec![
        entry(&[b"b.mp3"], EntryKind::File),
        entry(&[b"a.ogg"], EntryKind::File),
        entry(&[b"c"], EntryKind::File),
    ]);
    assert_eq!(reports.len(), 1);
    assert_eq!(reports[0].oddity, Oddity::NoExtension);
    assert_eq!(state.music_list(), vec![vec![b"a.ogg".to_vec()], vec![b"b.mp3".to_vec()]]);
    state.update_music_index(&vec![entry(&[b"z.flac"], EntryKind::File)]);
    assert_eq!(state.music_list(), vec![vec![b"z.flac".to_vec()]]);
    state.update_music_index(&Vec::new());
    assert!(state.music_list().is_empty());
}

#[test]
fn state_scenario_publishes_only_song() {
    let mut state = State::new();
    let token = state.create_session().unwrap();
    state.update_music_index(&vec![
        entry(&[b"a"], EntryKind::Directory),
        entry(&[b"a", b"song.mp3"], EntryKind::File),
        entry(&[b"a", b"cover.jpg"], EntryKind::File),
        entry(&[b"b"], EntryKind::Directory),
        entry(&[b"b", b"track.FLAC"], EntryKind::File),
        entry(&[b"notes.txt"], EntryKind::File),
    ]);
    assert_eq!(state.music_list(), vec![vec![b"a".to_vec(), b"song.mp3".to_vec()]]);
    assert!(state.is_session_valid(&token));
}

#[test]
fn state_eviction_around_ttl() {
    let mut state = State::new();
    let token = state.create_session().unwrap();
    assert_eq!(token.len(), 36);
    assert_eq!(state.cleanup_old_sessions(), Some(Vec::new()));
    assert!(state.is_session_valid(&token));
    let far = Timestamp { seconds: i64::MAX, nanos: 0 };
    let removed = state.evict_expired(far, 60);
    assert_eq!(removed, vec![token.clone()]);
    assert!(!state.is_session_valid(&token));
}

#[test]
fn state_two_phase_eviction_spares_new_session() {
    let mut state = State::new();
    let old = state.create_session().unwrap();
    let far = Timestamp { seconds: i64::MAX, nanos: 0 };
    let gone = state.expired_sessions(far, 60);
    let young = state.create_session().unwrap();
    state.remove_sessions(&gone);
    assert!(!state.is_session_valid(&old));
    assert!(state.is_session_valid(&young));
    assert!(!state.is_session_valid("missing"));
}
