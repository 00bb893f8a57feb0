use draw_mixer::track::{AudioSourceRaw, TrackType, TrackUpdate, DEFAULT_INPUT_GAIN};
use draw_mixer::track_list::{TrackError, TrackList};

fn file(p: &str) -> AudioSourceRaw {
    AudioSourceRaw::File(p.to_string())
}

fn names(list: &TrackList) -> Vec<String> {
    list.as_response().tracks.iter().map(|t| t.name.clone()).collect()
}

#[test]
fn add_and_list_in_name_order() {
    let mut list = TrackList::new();
    assert_eq!(list.add_track("drums", file("d.wav")), Ok(0));
    assert_eq!(list.add_track("bass", file("b.wav")), Ok(1));
    assert_eq!(list.add_track("voice", AudioSourceRaw::Stream("mic".to_string())), Ok(2));
    assert_eq!(names(&list), vec!["bass", "drums", "voice"]);
    assert_eq!(list.track_list(), vec!["bass", "drums", "voice"]);
    assert_eq!(list.len(), 3);
    let info = &list.as_response().tracks[0];
    assert_eq!(info.gain, DEFAULT_INPUT_GAIN);
    assert_eq!(f32::from_bits(info.gain), 0.5);
    assert_eq!(info.track_type, TrackType::In);
    assert!(!info.mute && !info.solo && !info.monitor && !info.record);
}

#[test]
fn duplicate_name_is_refused() {
    let mut list = TrackList::new();
    assert_eq!(list.add_track("a", file("a.wav")), Ok(0));
    assert_eq!(list.add_track("a", file("other.wav")), Err(TrackError::NameTaken));
    assert_eq!(list.len(), 1);
}

#[test]
fn remove_and_get_track() {
    let mut list = TrackList::new();
    list.add_track("a", file("a.wav")).unwrap();
    list.add_track("b", file("b.wav")).unwrap();
    let got = list.get_track("b").unwrap();
    assert_eq!(got.state.id, 1);
    let removed = list.remove_track("a").unwrap();
    assert_eq!(removed.name, "a");
    assert!(list.get_track("a").is_none());
    assert!(list.remove_track("a").is_none());
    assert_eq!(names(&list), vec!["b"]);
}

#[test]
fn unknown_track_update_is_an_error() {
    let mut list = TrackList::new();
    assert_eq!(list.update_track("ghost", TrackUpdate::Mute(true)), Err(TrackError::UnknownTrack));
}

#[test]
fn rename_moves_entry_with_attributes() {
    let mut list = TrackList::new();
    list.add_track("old", file("o.wav")).unwrap();
    list.add_track("zeta", file("z.wav")).unwrap();
    list.update_track("old", TrackUpdate::Gain(0.8f32.to_bits())).unwrap();
    list.update_track("old", TrackUpdate::Pan((-0.25f32).to_bits())).unwrap();
    list.update_track("old", TrackUpdate::Mute(true)).unwrap();
    list.update_track("old", TrackUpdate::Solo(true)).unwrap();
    let before = list.get_track("old").unwrap();
    let action = list.update_track("old", TrackUpdate::Name("new".to_string())).unwrap();
    assert!(action.is_noop());
    let rows = list.as_response().tracks;
    assert_eq!(rows.iter().map(|r| r.name.as_str()).collect::<Vec<_>>(), vec!["new", "zeta"]);
    assert!(rows.iter().all(|r| r.name != "old"));
    let row = &rows[0];
    assert_eq!(f32::from_bits(row.gain), 0.8);
    assert_eq!(f32::from_bits(row.pan), -0.25);
    assert!(row.mute && row.solo && !row.monitor && !row.record);
    let after = list.get_track("new").unwrap();
    assert_eq!(after.state.id, before.state.id);
    assert_eq!(after.state.settings, before.state.settings);
}

#[test]
fn rename_to_taken_name_is_refused() {
    let mut list = TrackList::new();
    list.add_track("a", file("a.wav")).unwrap();
    list.add_track("b", file("b.wav")).unwrap();
    assert_eq!(list.update_track("a", TrackUpdate::Name("b".to_string())), Err(TrackError::NameTaken));
    assert_eq!(names(&list), vec!["a", "b"]);
}

#[test]
fn monitor_and_record_drive_the_stream() {
    let mut list = TrackList::new();
    let id = list.add_track("in", AudioSourceRaw::Stream("mic".to_string())).unwrap();
    let a = list.update_track("in", TrackUpdate::Monitor(true)).unwrap();
    assert_eq!(a.track, id);
    assert!(a.start_source && !a.open_recording && !a.finalize_recording && !a.stop_source);
    let b = list.update_track("in", TrackUpdate::Record(true)).unwrap();
    assert!(!b.start_source && b.open_recording && !b.finalize_recording && !b.stop_source);
    let c = list.update_track("in", TrackUpdate::Monitor(false)).unwrap();
    assert!(c.is_noop());
    let d = list.update_track("in", TrackUpdate::Record(false)).unwrap();
    assert!(!d.start_source && !d.open_recording && d.finalize_recording && d.stop_source);
    let e = list.update_track("in", TrackUpdate::Gain(1.0f32.to_bits())).unwrap();
    assert!(e.is_noop());
}

#[test]
fn stop_stream_twice_is_noop() {
    let mut list = TrackList::new();
    list.add_track("a", file("a.wav")).unwrap();
    list.add_track("b", file("b.wav")).unwrap();
    list.update_track("a", TrackUpdate::Record(true)).unwrap();
    let first = list.stop_stream();
    assert_eq!(first.len(), 1);
    assert!(first[0].stop_source && first[0].finalize_recording);
    let second = list.stop_stream();
    assert!(second.is_empty());
    assert!(!list.get_track("a").unwrap().state.lifecycle.streaming);
}

#[test]
fn start_stream_starts_eligible_tracks() {
    let mut list = TrackList::new();
    list.add_track("a", file("a.wav")).unwrap();
    list.add_track("b", file("b.wav")).unwrap();
    list.update_track("a", TrackUpdate::Monitor(true)).unwrap();
    list.stop_stream();
    let started = list.start_stream();
    assert_eq!(started.len(), 1);
    assert!(started[0].start_source && !started[0].open_recording);
    assert!(list.start_stream().is_empty());
}

#[test]
fn snapshot_round_trip() {
    let mut list = TrackList::new();
    list.add_track("kick", file("/audio/kick.wav")).unwrap();
    list.add_track("pad", file("/audio/pad.wav")).unwrap();
    list.update_track("kick", TrackUpdate::Gain(0.9f32.to_bits())).unwrap();
    list.update_track("kick", TrackUpdate::Record(true)).unwrap();
    list.update_track("pad", TrackUpdate::Pan(0.5f32.to_bits())).unwrap();
    list.update_track("pad", TrackUpdate::Mute(true)).unwrap();
    list.update_track("pad", TrackUpdate::Solo(true)).unwrap();
    list.update_track("pad", TrackUpdate::Monitor(true)).unwrap();
    let restored = TrackList::from_raw(list.to_raw()).unwrap();
    for name in ["kick", "pad"] {
        let a = list.get_track(name).unwrap();
        let b = restored.get_track(name).unwrap();
        assert_eq!(a.state.settings, b.state.settings);
        assert_eq!(a.state.track_type, b.state.track_type);
        match (&a.state.source, &b.state.source) {
            (AudioSourceRaw::File(x), AudioSourceRaw::File(y)) => assert_eq!(x, y),
            _ => panic!("source kind changed"),
        }
    }
    assert_eq!(restored.len(), 2);
}

#[test]
fn snapshot_with_duplicate_names_is_refused() {
    let mut list = TrackList::new();
    list.add_track("a", file("a.wav")).unwrap();
    let mut raw = list.to_raw();
    raw.push(raw[0].clone());
    assert!(matches!(TrackList::from_raw(raw), Err(TrackError::NameTaken)));
}

#[test]
fn solo_precedence() {
    let mut list = TrackList::new();
    let a = list.add_track("a", file("a.wav")).unwrap();
    let b = list.add_track("b", file("b.wav")).unwrap();
    let c = list.add_track("c", file("c.wav")).unwrap();
    assert_eq!(list.contributors(), vec![a, b, c]);
    list.update_track("b", TrackUpdate::Solo(true)).unwrap();
    assert_eq!(list.contributors(), vec![b]);
    list.update_track("a", TrackUpdate::Mute(true)).unwrap();
    assert_eq!(list.contributors(), vec![b]);
    list.update_track("b", TrackUpdate::Mute(true)).unwrap();
    assert!(list.contributors().is_empty());
}

#[test]
fn muted_track_is_not_heard() {
    let mut list = TrackList::new();
    let a = list.add_track("a", file("a.wav")).unwrap();
    list.add_track("b", file("b.wav")).unwrap();
    list.update_track("b", TrackUpdate::Mute(true)).unwrap();
    assert!(!list.solo_active());
    assert_eq!(list.contributors(), vec![a]);
}

#[test]
fn is_heard_follows_mute_and_solo() {
    let mut list = TrackList::new();
    let a = list.add_track("a", file("a.wav")).unwrap();
    let b = list.add_track("b", file("b.wav")).unwrap();
    assert!(list.is_heard(a) && list.is_heard(b));
    assert!(!list.is_heard(99));
    list.update_track("a", TrackUpdate::Mute(true)).unwrap();
    assert!(!list.is_heard(a) && list.is_heard(b));
    list.update_track("a", TrackUpdate::Mute(false)).unwrap();
    list.update_track("a", TrackUpdate::Solo(true)).unwrap();
    assert!(list.is_heard(a) && !list.is_heard(b));
}
