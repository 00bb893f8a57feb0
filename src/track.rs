use vstd::prelude::*;

verus! {

/// Whether a track is an input channel or the master output.
#[derive(Clone, Copy, Debug, PartialEq, Eq, Structural)]
pub enum TrackType {
    In,
    MasterOut,
}

/// Where a track's samples come from: a WAV file, by path, or a capture device, by
/// name. This is also the persisted form of a track's source.
#[derive(Clone, Debug)]
pub enum AudioSourceRaw {
    File(String),
    Stream(String),
}

/// A gain of one half, as the bit pattern of an IEEE-754 single-precision value.
pub const DEFAULT_INPUT_GAIN: u32 = 0x3F00_0000;

/// A gain of one, as the bit pattern of an IEEE-754 single-precision value.
pub const UNITY_GAIN: u32 = 0x3F80_0000;

/// The bit pattern of a centred pan (positive zero).
pub const CENTER_PAN: u32 = 0;

/// The mixing attributes of a track. `gain` and `pan` hold the bit pattern of an
/// IEEE-754 single-precision value, carried through unchanged.
#[derive(Clone, Copy, Debug, PartialEq, Eq, Structural)]
pub struct TrackSettings {
    pub gain: u32,
    pub pan: u32,
    pub mute: bool,
    pub solo: bool,
    pub monitor: bool,
    pub record: bool,
}

/// Whether a track's source stream runs, and whether a recording sink is open on it.
#[derive(Clone, Copy, Debug, PartialEq, Eq, Structural)]
pub struct Lifecycle {
    pub streaming: bool,
    pub recording: bool,
}

/// Everything the registry knows of a track but its name.
#[derive(Clone, Debug)]
pub struct TrackState {
    /// A key that stays with the track for its whole life, renames included; the
    /// engine keys the track's live device or file handles by it.
    pub id: u64,
    pub track_type: TrackType,
    pub source: AudioSourceRaw,
    pub settings: TrackSettings,
    pub lifecycle: Lifecycle,
}

/// A named track.
#[derive(Clone, Debug)]
pub struct AudioTrack {
    pub name: String,
    pub state: TrackState,
}

/// One change to a track: its name, or one of its attributes.
#[derive(Clone, Debug)]
pub enum TrackUpdate {
    Name(String),
    Gain(u32),
    Pan(u32),
    Mute(bool),
    Solo(bool),
    Monitor(bool),
    Record(bool),
}

/// What the engine must do to one track's live resources, in this order: start the
/// source stream, open a recording sink, finalize the recording sink, stop the source
/// stream.
#[derive(Clone, Copy, Debug, PartialEq, Eq, Structural)]
pub struct StreamAction {
    pub track: u64,
    pub start_source: bool,
    pub open_recording: bool,
    pub finalize_recording: bool,
    pub stop_source: bool,
}

/// The settings of a newly added input track: half gain, centred, every flag off.
pub open spec fn default_settings() -> TrackSettings {
    TrackSettings {
        gain: DEFAULT_INPUT_GAIN,
        pan: CENTER_PAN,
        mute: false,
        solo: false,
        monitor: false,
        record: false,
    }
}

pub open spec fn idle() -> Lifecycle {
    Lifecycle { streaming: false, recording: false }
}

/// A sink is only ever open on a running stream.
pub open spec fn lifecycle_valid(l: Lifecycle) -> bool {
    l.recording ==> l.streaming
}

/// The lifecycle that the settings call for: the stream runs while the track is
/// monitored or recorded, and a sink is open while it is recorded.
pub open spec fn wanted_lifecycle(s: TrackSettings) -> Lifecycle {
    Lifecycle { streaming: s.monitor || s.record, recording: s.record }
}

/// The steps that take track `id` from lifecycle `from` to lifecycle `to`.
pub open spec fn action_between(id: u64, from: Lifecycle, to: Lifecycle) -> StreamAction {
    StreamAction {
        track: id,
        start_source: !from.streaming && to.streaming,
        open_recording: !from.recording && to.recording,
        finalize_recording: from.recording && !to.recording,
        stop_source: from.streaming && !to.streaming,
    }
}

/// An action that asks for nothing.
pub open spec fn is_noop(a: StreamAction) -> bool {
    !a.start_source && !a.open_recording && !a.finalize_recording && !a.stop_source
}

/// The settings after an attribute update; a rename leaves them as they are.
pub open spec fn updated_settings(s: TrackSettings, u: TrackUpdate) -> TrackSettings {
    match u {
        TrackUpdate::Name(_) => s,
        TrackUpdate::Gain(g) => TrackSettings { gain: g, ..s },
        TrackUpdate::Pan(p) => TrackSettings { pan: p, ..s },
        TrackUpdate::Mute(b) => TrackSettings { mute: b, ..s },
        TrackUpdate::Solo(b) => TrackSettings { solo: b, ..s },
        TrackUpdate::Monitor(b) => TrackSettings { monitor: b, ..s },
        TrackUpdate::Record(b) => TrackSettings { record: b, ..s },
    }
}

/// Whether an update can start or stop the stream: only monitor and record do.
pub open spec fn drives_lifecycle(u: TrackUpdate) -> bool {
    u is Monitor || u is Record
}

/// A track's state after an update: the new settings, and the lifecycle they call for
/// when the update was to monitor or record.
pub open spec fn updated_state(st: TrackState, u: TrackUpdate) -> TrackState {
    let settings = updated_settings(st.settings, u);
    TrackState {
        settings: settings,
        lifecycle: if drives_lifecycle(u) { wanted_lifecycle(settings) } else { st.lifecycle },
        ..st
    }
}

impl TrackSettings {
    pub fn new() -> (r: Self)
        ensures
            r == default_settings(),
    {
        TrackSettings {
            gain: DEFAULT_INPUT_GAIN,
            pan: CENTER_PAN,
            mute: false,
            solo: false,
            monitor: false,
            record: false,
        }
    }

    /// Applies an attribute update.
    pub fn apply(&mut self, update: &TrackUpdate)
        ensures
            *final(self) == updated_settings(*old(self), *update),
    {
        match update {
            TrackUpdate::Name(_) => {},
            TrackUpdate::Gain(g) => self.gain = *g,
            TrackUpdate::Pan(p) => self.pan = *p,
            TrackUpdate::Mute(b) => self.mute = *b,
            TrackUpdate::Solo(b) => self.solo = *b,
            TrackUpdate::Monitor(b) => self.monitor = *b,
            TrackUpdate::Record(b) => self.record = *b,
        }
    }
}

impl Lifecycle {
    pub fn idle() -> (r: Self)
        ensures
            r == idle(),
    {
        Lifecycle { streaming: false, recording: false }
    }

    /// The lifecycle that `settings` call for.
    pub fn wanted(settings: &TrackSettings) -> (r: Self)
        ensures
            r == wanted_lifecycle(*settings),
    {
        Lifecycle { streaming: settings.monitor || settings.record, recording: settings.record }
    }
}

impl StreamAction {
    /// The steps that take track `track` from `from` to `to`.
    pub fn between(track: u64, from: Lifecycle, to: Lifecycle) -> (r: Self)
        ensures
            r == action_between(track, from, to),
    {
        StreamAction {
            track,
            start_source: !from.streaming && to.streaming,
            open_recording: !from.recording && to.recording,
            finalize_recording: from.recording && !to.recording,
            stop_source: from.streaming && !to.streaming,
        }
    }

    /// Whether the action asks for nothing.
    pub fn is_noop(&self) -> (r: bool)
        ensures
            r == is_noop(*self),
    {
        !self.start_source && !self.open_recording && !self.finalize_recording && !self.stop_source
    }
}

impl AudioSourceRaw {
    /// A copy that holds the same path or device name.
    pub fn duplicate(&self) -> (r: Self)
        ensures
            r == *self,
    {
        match self {
            AudioSourceRaw::File(p) => AudioSourceRaw::File(p.clone()),
            AudioSourceRaw::Stream(d) => AudioSourceRaw::Stream(d.clone()),
        }
    }
}

impl TrackState {
    /// A copy with the same id, source, settings and lifecycle.
    pub fn duplicate(&self) -> (r: Self)
        ensures
            r == *self,
    {
        TrackState {
            id: self.id,
            track_type: self.track_type,
            source: self.source.duplicate(),
            settings: self.settings,
            lifecycle: self.lifecycle,
        }
    }
}

impl AudioTrack {
    /// A copy with the same name and state.
    pub fn duplicate(&self) -> (r: Self)
        ensures
            r == *self,
    {
        AudioTrack { name: self.name.clone(), state: self.state.duplicate() }
    }
}

} // verus!
