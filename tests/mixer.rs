use std::collections::HashMap;

use draw_mixer::mixer::{StateMixer, StateMixerRaw, MASTER_NAME};
use draw_mixer::ring_buffer::RingBuffer;
use draw_mixer::track::{AudioSourceRaw, TrackType, TrackUpdate, UNITY_GAIN};
use draw_mixer::track_list::TrackError;

fn file(p: &str) -> AudioSourceRaw {
    AudioSourceRaw::File(p.to_string())
}

#[test]
fn listing_is_ordered_by_name() {
    let mut mixer = StateMixer::new();
    mixer.add_track("b", file("b.wav")).unwrap();
    mixer.add_track("a", file("a.wav")).unwrap();
    mixer.add_track("zz", file("z.wav")).unwrap();
    let rows = mixer.get_track_list().tracks;
    assert_eq!(rows.iter().map(|r| r.name.as_str()).collect::<Vec<_>>(), vec!["a", "b", MASTER_NAME, "zz"]);
    assert_eq!(rows[2].track_type, TrackType::MasterOut);
    assert_eq!(rows[2].gain, UNITY_GAIN);
}

#[test]
fn master_takes_gain_and_pan_only() {
    let mut mixer = StateMixer::new();
    assert_eq!(mixer.update_track(MASTER_NAME, TrackUpdate::Gain(0.7f32.to_bits())), Ok(None));
    assert_eq!(mixer.update_track(MASTER_NAME, TrackUpdate::Pan(0.1f32.to_bits())), Ok(None));
    assert_eq!(mixer.update_track(MASTER_NAME, TrackUpdate::Mute(true)), Ok(None));
    let row = &mixer.get_track_list().tracks[0];
    assert_eq!(f32::from_bits(row.gain), 0.7);
    assert_eq!(f32::from_bits(row.pan), 0.1);
    assert!(!row.mute);
}

#[test]
fn master_name_is_reserved() {
    let mut mixer = StateMixer::new();
    assert_eq!(mixer.add_track(MASTER_NAME, file("x.wav")), Err(TrackError::NameTaken));
    mixer.add_track("a", file("a.wav")).unwrap();
    assert_eq!(
        mixer.update_track("a", TrackUpdate::Name(MASTER_NAME.to_string())),
        Err(TrackError::NameTaken)
    );
    assert_eq!(
        mixer.update_track("zz", TrackUpdate::Name(MASTER_NAME.to_string())),
        Err(TrackError::UnknownTrack)
    );
}

#[test]
fn rename_through_project() {
    let mut mixer = StateMixer::new();
    mixer.add_track("a", file("a.wav")).unwrap();
    mixer.update_track("a", TrackUpdate::Gain(0.3f32.to_bits())).unwrap();
    let r = mixer.update_track("a", TrackUpdate::Name("lead".to_string()));
    assert!(matches!(r, Ok(Some(a)) if a.is_noop()));
    let rows = mixer.get_track_list().tracks;
    assert_eq!(rows.iter().map(|r| r.name.as_str()).collect::<Vec<_>>(), vec!["lead", MASTER_NAME]);
    assert_eq!(f32::from_bits(rows[0].gain), 0.3);
}

#[test]
fn empty_tracks_are_numbered() {
    let mut mixer = StateMixer::new();
    assert_eq!(mixer.add_empty_track("mic".to_string()), Ok(0));
    assert_eq!(mixer.add_empty_track("mic".to_string()), Ok(1));
    let rows = mixer.get_track_list().tracks;
    assert_eq!(rows[1].name, "track-1");
    assert_eq!(rows[2].name, "track-2");
    let t = mixer.track_list.get_track("track-1").unwrap();
    assert!(matches!(&t.state.source, AudioSourceRaw::Stream(d) if d == "mic"));
}

#[test]
fn empty_track_name_collision_is_refused() {
    let mut mixer = StateMixer::new();
    mixer.add_track("track-2", file("t.wav")).unwrap();
    assert_eq!(mixer.add_empty_track("mic".to_string()), Err(TrackError::NameTaken));
}

#[test]
fn project_snapshot_round_trip() {
    let mut mixer = StateMixer::new();
    mixer.add_track("x", file("/tmp/x.wav")).unwrap();
    mixer.add_track("y", file("/tmp/y.wav")).unwrap();
    mixer.update_track("x", TrackUpdate::Solo(true)).unwrap();
    mixer.update_track("y", TrackUpdate::Record(true)).unwrap();
    let snapshot = mixer.to_snapshot();
    let mut other = StateMixer::new();
    other.add_track("old", file("/tmp/old.wav")).unwrap();
    other.update_track("old", TrackUpdate::Monitor(true)).unwrap();
    let stops = other.load_snapshot(snapshot).unwrap();
    assert_eq!(stops.len(), 1);
    assert!(stops[0].stop_source);
    let a = mixer.get_track_list().tracks;
    let b = other.get_track_list().tracks;
    assert_eq!(a.len(), b.len());
    for (x, y) in a.iter().zip(b.iter()) {
        assert_eq!(x.name, y.name);
        assert_eq!((x.gain, x.pan, x.mute, x.solo, x.monitor, x.record), (y.gain, y.pan, y.mute, y.solo, y.monitor, y.record));
    }
}

#[test]
fn failed_load_leaves_project_untouched() {
    let mut mixer = StateMixer::new();
    mixer.add_track("keep", file("k.wav")).unwrap();
    let mut dup = StateMixer::new();
    dup.add_track("a", file("a.wav")).unwrap();
    let mut raw = dup.to_snapshot();
    raw.track_list.push(raw.track_list[0].clone());
    assert!(matches!(mixer.load_snapshot(raw), Err(TrackError::NameTaken)));
    let mut named_master = StateMixer::new();
    named_master.add_track("m", file("m.wav")).unwrap();
    let mut raw2: StateMixerRaw = named_master.to_snapshot();
    raw2.track_list[0].name = MASTER_NAME.to_string();
    assert!(matches!(mixer.load_snapshot(raw2), Err(TrackError::NameTaken)));
    let rows = mixer.get_track_list().tracks;
    assert_eq!(rows.iter().map(|r| r.name.as_str()).collect::<Vec<_>>(), vec!["keep", MASTER_NAME]);
}

#[test]
fn mixing_two_constant_tracks() {
    let mut mixer = StateMixer::new();
    let a = mixer.add_track("a", file("a.wav")).unwrap();
    let b = mixer.add_track("b", file("b.wav")).unwrap();
    let mut buffers: HashMap<u64, RingBuffer<f32>> = HashMap::new();
    let mut ra = RingBuffer::new(16, 0.0f32);
    ra.write(&[0.2]);
    let mut rb = RingBuffer::new(16, 0.0f32);
    rb.write(&[0.3]);
    buffers.insert(a, ra);
    buffers.insert(b, rb);
    let mut sum = 0.0f32;
    for id in mixer.track_list.contributors() {
        sum += buffers.get_mut(&id).unwrap().pop().unwrap_or(0.0);
    }
    assert!((sum - 0.5).abs() < 1e-6);
    let mut silence = 0.0f32;
    for id in mixer.track_list.contributors() {
        silence += buffers.get_mut(&id).unwrap().pop().unwrap_or(0.0);
    }
    assert_eq!(silence, 0.0);
}
