use vstd::prelude::*;

use crate::text::{
    lemma_name_before_irreflexive, lemma_name_before_total, lemma_name_before_transitive,
    name_before, str_before, str_eq,
};
use crate::track::{
    action_between, default_settings, idle, lifecycle_valid, updated_state, wanted_lifecycle,
    AudioSourceRaw, AudioTrack, Lifecycle, StreamAction, TrackSettings, TrackState, TrackType,
    TrackUpdate,
};

verus! {

/// Why the registry refused a command.
#[derive(Clone, Copy, Debug, PartialEq, Eq, Structural)]
pub enum TrackError {
    /// No track has the given name.
    UnknownTrack,
    /// Another track already has the requested name.
    NameTaken,
    /// Every track id has been handed out.
    IdsExhausted,
}

/// Track `i` sorts strictly before track `j` whenever `i < j`; in particular the names
/// are unique.
pub open spec fn sorted_by_name(s: Seq<AudioTrack>) -> bool {
    forall|i: int, j: int| 0 <= i < j < s.len() ==> name_before(#[trigger] s[i].name@, #[trigger] s[j].name@)
}

pub open spec fn holds_name(s: Seq<AudioTrack>, k: Seq<char>) -> bool {
    exists|i: int| 0 <= i < s.len() && #[trigger] s[i].name@ == k
}

/// The tracks as a map from name to state.
pub open spec fn seq_model(s: Seq<AudioTrack>) -> Map<Seq<char>, TrackState> {
    Map::new(
        |k: Seq<char>| holds_name(s, k),
        |k: Seq<char>| s[index_of_name(s, k)].state,
    )
}

/// A position of a track named `k`, when there is one.
pub open spec fn index_of_name(s: Seq<AudioTrack>, k: Seq<char>) -> int {
    choose|i: int| 0 <= i < s.len() && #[trigger] s[i].name@ == k
}

pub proof fn lemma_names_distinct(s: Seq<AudioTrack>, i: int, j: int)
    requires
        sorted_by_name(s),
        0 <= i < s.len(),
        0 <= j < s.len(),
        i != j,
    ensures
        s[i].name@ != s[j].name@,
{
    if i < j {
        assert(name_before(s[i].name@, s[j].name@));
        lemma_name_before_irreflexive(s[i].name@);
    } else {
        assert(name_before(s[j].name@, s[i].name@));
        lemma_name_before_irreflexive(s[j].name@);
    }
}

/// In a sorted sequence the model maps each track's name to that track's state.
pub proof fn lemma_seq_model_at(s: Seq<AudioTrack>, i: int)
    requires
        sorted_by_name(s),
        0 <= i < s.len(),
    ensures
        seq_model(s).contains_key(s[i].name@),
        seq_model(s)[s[i].name@] == s[i].state,
{
    let k = s[i].name@;
    assert(holds_name(s, k));
    let j = index_of_name(s, k);
    if j != i {
        lemma_names_distinct(s, i, j);
    }
}

/// Two sorted sequences whose tracks agree on every name give the same model.
pub proof fn lemma_seq_model_ext(s: Seq<AudioTrack>, m: Map<Seq<char>, TrackState>)
    requires
        sorted_by_name(s),
        forall|i: int| 0 <= i < s.len() ==> m.contains_key(#[trigger] s[i].name@) && m[s[i].name@] == s[i].state,
        forall|k: Seq<char>| m.contains_key(k) ==> holds_name(s, k),
    ensures
        seq_model(s) == m,
{
    assert forall|k: Seq<char>| #[trigger] seq_model(s).contains_key(k) <==> m.contains_key(k) by {
        if seq_model(s).contains_key(k) {
            let i = choose|i: int| 0 <= i < s.len() && #[trigger] s[i].name@ == k;
            assert(m.contains_key(s[i].name@));
        }
    }
    assert forall|k: Seq<char>| #[trigger] seq_model(s).contains_key(k) implies seq_model(s)[k] == m[k] by {
        let i = index_of_name(s, k);
        lemma_seq_model_at(s, i);
    }
    assert(seq_model(s) =~= m);
}

/// One row of the track listing shown to the user.
#[derive(Clone, Debug)]
pub struct TrackInfo {
    pub name: String,
    pub track_type: TrackType,
    pub gain: u32,
    pub pan: u32,
    pub monitor: bool,
    pub solo: bool,
    pub mute: bool,
    pub record: bool,
}

/// The track listing, ordered by name.
#[derive(Clone, Debug)]
pub struct TrackListResponse {
    pub tracks: Vec<TrackInfo>,
}

pub open spec fn info_of(t: AudioTrack) -> TrackInfo {
    TrackInfo {
        name: t.name,
        track_type: t.state.track_type,
        gain: t.state.settings.gain,
        pan: t.state.settings.pan,
        monitor: t.state.settings.monitor,
        solo: t.state.settings.solo,
        mute: t.state.settings.mute,
        record: t.state.settings.record,
    }
}

/// Whether an info row shows exactly the attributes of `st`.
pub open spec fn info_shows(info: TrackInfo, st: TrackState) -> bool {
    &&& info.track_type == st.track_type
    &&& info.gain == st.settings.gain
    &&& info.pan == st.settings.pan
    &&& info.monitor == st.settings.monitor
    &&& info.solo == st.settings.solo
    &&& info.mute == st.settings.mute
    &&& info.record == st.settings.record
}

/// A track with its stream stopped and its sink finalized.
pub open spec fn stopped_track(t: AudioTrack) -> AudioTrack {
    AudioTrack { state: TrackState { lifecycle: idle(), ..t.state }, ..t }
}

/// The steps that stop every running track, in order.
pub open spec fn stop_actions(s: Seq<AudioTrack>) -> Seq<StreamAction>
    decreases s.len(),
{
    if s.len() == 0 {
        Seq::empty()
    } else {
        let rest = stop_actions(s.drop_last());
        let st = s.last().state;
        if st.lifecycle.streaming {
            rest.push(action_between(st.id, st.lifecycle, idle()))
        } else {
            rest
        }
    }
}

/// Whether a track is monitored or recorded but not yet in the lifecycle that calls for.
pub open spec fn awaits_start(st: TrackState) -> bool {
    wanted_lifecycle(st.settings).streaming && st.lifecycle != wanted_lifecycle(st.settings)
}

/// A track after the streams of eligible tracks were started.
pub open spec fn started_track(t: AudioTrack) -> AudioTrack {
    if awaits_start(t.state) {
        AudioTrack { state: TrackState { lifecycle: wanted_lifecycle(t.state.settings), ..t.state }, ..t }
    } else {
        t
    }
}

/// The steps that start every eligible track, in order.
pub open spec fn start_actions(s: Seq<AudioTrack>) -> Seq<StreamAction>
    decreases s.len(),
{
    if s.len() == 0 {
        Seq::empty()
    } else {
        let rest = start_actions(s.drop_last());
        let st = s.last().state;
        if awaits_start(st) {
            rest.push(action_between(st.id, st.lifecycle, wanted_lifecycle(st.settings)))
        } else {
            rest
        }
    }
}

/// Whether some track is soloed.
pub open spec fn any_solo(s: Seq<AudioTrack>) -> bool {
    exists|i: int| 0 <= i < s.len() && #[trigger] s[i].state.settings.solo
}

/// Whether a track with these settings is heard in the mix: it is not muted and, when
/// some track is soloed, it is soloed too.
pub open spec fn contributes(settings: TrackSettings, solo_active: bool) -> bool {
    !settings.mute && (!solo_active || settings.solo)
}

/// The ids of the tracks of `s` that are heard, in order, when `solo_active` says
/// whether some track is soloed.
pub open spec fn contributing_ids(s: Seq<AudioTrack>, solo_active: bool) -> Seq<u64>
    decreases s.len(),
{
    if s.len() == 0 {
        Seq::empty()
    } else {
        let rest = contributing_ids(s.drop_last(), solo_active);
        if contributes(s.last().state.settings, solo_active) {
            rest.push(s.last().state.id)
        } else {
            rest
        }
    }
}

/// The persisted form of a track: its attributes and where its samples come from, no
/// live handles.
#[derive(Clone, Debug)]
pub struct AudioTrackRaw {
    pub name: String,
    pub track_type: TrackType,
    pub source: AudioSourceRaw,
    pub gain: u32,
    pub pan: u32,
    pub solo: bool,
    pub monitor: bool,
    pub mute: bool,
    pub record: bool,
}

pub open spec fn raw_of(t: AudioTrack) -> AudioTrackRaw {
    AudioTrackRaw {
        name: t.name,
        track_type: t.state.track_type,
        source: t.state.source,
        gain: t.state.settings.gain,
        pan: t.state.settings.pan,
        solo: t.state.settings.solo,
        monitor: t.state.settings.monitor,
        mute: t.state.settings.mute,
        record: t.state.settings.record,
    }
}

pub open spec fn raw_settings(r: AudioTrackRaw) -> TrackSettings {
    TrackSettings {
        gain: r.gain,
        pan: r.pan,
        mute: r.mute,
        solo: r.solo,
        monitor: r.monitor,
        record: r.record,
    }
}

/// The state that record `r`, the `id`-th of a snapshot, is restored to: its
/// attributes and source, idle.
pub open spec fn restored_state(r: AudioTrackRaw, id: int) -> TrackState {
    TrackState {
        id: id as u64,
        track_type: r.track_type,
        source: r.source,
        settings: raw_settings(r),
        lifecycle: idle(),
    }
}

pub open spec fn raw_names_unique(s: Seq<AudioTrackRaw>) -> bool {
    forall|i: int, j: int| 0 <= i < s.len() && 0 <= j < s.len() && i != j ==> #[trigger] s[i].name@ != #[trigger] s[j].name@
}

pub open spec fn raw_index(s: Seq<AudioTrackRaw>, k: Seq<char>) -> int {
    choose|i: int| 0 <= i < s.len() && #[trigger] s[i].name@ == k
}

/// The registry that a snapshot restores to, by name.
pub open spec fn restored_model(s: Seq<AudioTrackRaw>) -> Map<Seq<char>, TrackState> {
    Map::new(
        |k: Seq<char>| exists|i: int| 0 <= i < s.len() && #[trigger] s[i].name@ == k,
        |k: Seq<char>| restored_state(s[raw_index(s, k)], raw_index(s, k)),
    )
}

/// What a snapshot keeps of a track: its kind, source and settings.
pub open spec fn persisted_part(st: TrackState) -> (TrackType, AudioSourceRaw, TrackSettings) {
    (st.track_type, st.source, st.settings)
}

/// Stopping twice in a row: the second stop asks for nothing and changes nothing.
pub proof fn lemma_stop_stream_idempotent(s: Seq<AudioTrack>)
    ensures
        stop_actions(s.map_values(|t: AudioTrack| stopped_track(t))) == Seq::<StreamAction>::empty(),
        s.map_values(|t: AudioTrack| stopped_track(t)).map_values(|t: AudioTrack| stopped_track(t))
            == s.map_values(|t: AudioTrack| stopped_track(t)),
    decreases s.len(),
{
    let m = s.map_values(|t: AudioTrack| stopped_track(t));
    if s.len() > 0 {
        assert(m.drop_last() =~= s.drop_last().map_values(|t: AudioTrack| stopped_track(t)));
        lemma_stop_stream_idempotent(s.drop_last());
    }
    assert(m.map_values(|t: AudioTrack| stopped_track(t)) =~= m);
}

proof fn lemma_contributing_ids_member(s: Seq<AudioTrack>, solo_active: bool, x: u64)
    requires
        contributing_ids(s, solo_active).contains(x),
    ensures
        exists|i: int| 0 <= i < s.len() && #[trigger] s[i].state.id == x && contributes(s[i].state.settings, solo_active),
    decreases s.len(),
{
    let rest = contributing_ids(s.drop_last(), solo_active);
    if rest.contains(x) {
        lemma_contributing_ids_member(s.drop_last(), solo_active, x);
        let i = choose|i: int| 0 <= i < s.drop_last().len() && #[trigger] s.drop_last()[i].state.id == x
            && contributes(s.drop_last()[i].state.settings, solo_active);
        assert(s[i].state.id == x);
    } else {
        assert(s[s.len() - 1].state.id == x);
    }
}

/// What adding a track named `name` reading from `source` does: refused when the name
/// is taken or the ids are used up, else a new idle input track with the default
/// settings and the next id.
pub open spec fn add_outcome(
    before: TrackList,
    after: TrackList,
    name: Seq<char>,
    source: AudioSourceRaw,
    r: Result<u64, TrackError>,
) -> bool {
    &&& before.model().contains_key(name) ==> r == Err::<u64, TrackError>(TrackError::NameTaken)
    &&& !before.model().contains_key(name) && before.next_id() == u64::MAX
        ==> r == Err::<u64, TrackError>(TrackError::IdsExhausted)
    &&& !before.model().contains_key(name) && before.next_id() < u64::MAX
        ==> r == Ok::<u64, TrackError>(before.next_id())
    &&& r is Err ==> after.model() == before.model() && after.next_id() == before.next_id()
    &&& r is Ok ==> after.model() == before.model().insert(
        name,
        TrackState {
            id: r->Ok_0,
            track_type: TrackType::In,
            source: source,
            settings: default_settings(),
            lifecycle: idle(),
        },
    ) && after.next_id() == before.next_id() + 1
}

/// What applying `update` to the track named `name` does. Unknown names are refused.
/// An attribute update changes that track's state as `updated_state` says and asks
/// for the steps between its old and new lifecycle. A rename to a free name moves the
/// same state to the new name; a rename to the same name changes nothing; a rename to
/// a taken name is refused. Renames ask for no step.
pub open spec fn update_outcome(
    before: TrackList,
    after: TrackList,
    name: Seq<char>,
    update: TrackUpdate,
    r: Result<StreamAction, TrackError>,
) -> bool {
    let st = before.model()[name];
    &&& after.next_id() == before.next_id()
    &&& !before.model().contains_key(name) ==> r == Err::<StreamAction, TrackError>(TrackError::UnknownTrack)
        && after.model() == before.model()
    &&& before.model().contains_key(name) && !(update is Name) ==> {
        &&& r == Ok::<StreamAction, TrackError>(action_between(st.id, st.lifecycle, updated_state(st, update).lifecycle))
        &&& after.model() == before.model().insert(name, updated_state(st, update))
    }
    &&& before.model().contains_key(name) && update is Name && update->Name_0@ == name ==> {
        &&& r == Ok::<StreamAction, TrackError>(action_between(st.id, st.lifecycle, st.lifecycle))
        &&& after.model() == before.model()
    }
    &&& before.model().contains_key(name) && update is Name && update->Name_0@ != name
        && before.model().contains_key(update->Name_0@) ==> r == Err::<StreamAction, TrackError>(TrackError::NameTaken)
        && after.model() == before.model()
    &&& before.model().contains_key(name) && update is Name && update->Name_0@ != name
        && !before.model().contains_key(update->Name_0@) ==> {
        &&& r == Ok::<StreamAction, TrackError>(action_between(st.id, st.lifecycle, st.lifecycle))
        &&& after.model() == before.model().remove(name).insert(update->Name_0@, st)
    }
}

/// The registry of input tracks: unique names, each with its state, kept in name
/// order.
pub struct TrackList {
    tracks: Vec<AudioTrack>,
    next_id: u64,
}

impl TrackList {
    /// The tracks, in name order.
    pub closed spec fn entries(&self) -> Seq<AudioTrack> {
        self.tracks@
    }

    /// The tracks by name.
    pub open spec fn model(&self) -> Map<Seq<char>, TrackState> {
        seq_model(self.entries())
    }

    /// The id that the next added track gets.
    pub closed spec fn next_id(&self) -> u64 {
        self.next_id
    }

    pub closed spec fn well_formed(&self) -> bool {
        &&& sorted_by_name(self.tracks@)
        &&& forall|i: int| 0 <= i < self.tracks@.len() ==> #[trigger] self.tracks@[i].state.id < self.next_id
        &&& forall|i: int, j: int|
            0 <= i < self.tracks@.len() && 0 <= j < self.tracks@.len() && i != j
                ==> #[trigger] self.tracks@[i].state.id != #[trigger] self.tracks@[j].state.id
        &&& forall|i: int| 0 <= i < self.tracks@.len() ==> lifecycle_valid(#[trigger] self.tracks@[i].state.lifecycle)
    }

    /// An empty registry.
    pub fn new() -> (r: Self)
        ensures
            r.well_formed(),
            r.model() == Map::<Seq<char>, TrackState>::empty(),
            r.next_id() == 0,
    {
        let r = TrackList { tracks: Vec::new(), next_id: 0 };
        assert(r.model() =~= Map::<Seq<char>, TrackState>::empty());
        r
    }

    /// How many tracks there are.
    pub fn len(&self) -> (r: usize)
        requires
            self.well_formed(),
        ensures
            r == self.model().dom().len(),
    {
        proof {
            self.lemma_dom_len();
        }
        self.tracks.len()
    }

    proof fn lemma_dom_len(&self)
        requires
            self.well_formed(),
        ensures
            self.model().dom().finite(),
            self.model().dom().len() == self.tracks@.len(),
    {
        let s = self.tracks@;
        let names = s.map_values(|t: AudioTrack| t.name@);
        assert forall|i: int, j: int| 0 <= i < names.len() && 0 <= j < names.len() && i != j implies names[i] != names[j] by {
            lemma_names_distinct(s, i, j);
        }
        names.unique_seq_to_set();
        assert forall|k: Seq<char>| #[trigger] self.model().dom().contains(k) <==> names.to_set().contains(k) by {
            if self.model().dom().contains(k) {
                let i = choose|i: int| 0 <= i < s.len() && #[trigger] s[i].name@ == k;
                assert(names[i] == k);
            }
            if names.to_set().contains(k) {
                let i = choose|i: int| 0 <= i < names.len() && names[i] == k;
                assert(s[i].name@ == k);
            }
        }
        assert(self.model().dom() =~= names.to_set());
        vstd::seq_lib::seq_to_set_is_finite(names);
    }

    /// What holds of every registry: the entries are in strict name order, there are
    /// finitely many tracks, one per entry, distinct tracks have distinct ids below
    /// `next_id()`, and a recording sink is open only on a running stream.
    pub proof fn lemma_well_formed(&self)
        requires
            self.well_formed(),
        ensures
            sorted_by_name(self.entries()),
            self.model().dom().finite(),
            self.model().dom().len() == self.entries().len(),
            forall|k1: Seq<char>, k2: Seq<char>|
                #[trigger] self.model().contains_key(k1) && #[trigger] self.model().contains_key(k2) && k1 != k2
                    ==> self.model()[k1].id != self.model()[k2].id,
            forall|k: Seq<char>| #[trigger] self.model().contains_key(k) ==> self.model()[k].id < self.next_id()
                && lifecycle_valid(self.model()[k].lifecycle),
    {
        self.lemma_dom_len();
        let s = self.tracks@;
        assert forall|k1: Seq<char>, k2: Seq<char>|
            #[trigger] self.model().contains_key(k1) && #[trigger] self.model().contains_key(k2) && k1 != k2
                implies self.model()[k1].id != self.model()[k2].id by {
            let i = index_of_name(s, k1);
            let j = index_of_name(s, k2);
            lemma_seq_model_at(s, i);
            lemma_seq_model_at(s, j);
        }
        assert forall|k: Seq<char>| #[trigger] self.model().contains_key(k) implies self.model()[k].id < self.next_id()
            && lifecycle_valid(self.model()[k].lifecycle) by {
            let i = index_of_name(s, k);
            lemma_seq_model_at(s, i);
        }
    }

    /// Whether the track with id `id` is heard in the mix. Allocates nothing, so the
    /// playback callback can ask it.
    pub fn is_heard(&self, id: u64) -> (r: bool)
        ensures
            r == exists|i: int| 0 <= i < self.entries().len() && #[trigger] self.entries()[i].state.id == id
                && contributes(self.entries()[i].state.settings, any_solo(self.entries())),
    {
        let solo = self.solo_active();
        let mut i: usize = 0;
        while i < self.tracks.len()
            invariant
                solo == any_solo(self.tracks@),
                i <= self.tracks@.len(),
                forall|j: int| 0 <= j < i ==> !(#[trigger] self.tracks@[j].state.id == id
                    && contributes(self.tracks@[j].state.settings, solo)),
            decreases self.tracks@.len() - i,
        {
            let settings = self.tracks[i].state.settings;
            if self.tracks[i].state.id == id && !settings.mute && (!solo || settings.solo) {
                return true;
            }
            i = i + 1;
        }
        false
    }

    /// Where `name` stands or would stand: `Ok(i)` when track `i` has it, else `Err(p)`
    /// with every track before `p` sorting before it and every other after it.
    fn find(&self, name: &str) -> (r: Result<usize, usize>)
        requires
            self.well_formed(),
        ensures
            r is Ok ==> r->Ok_0 < self.tracks@.len() && self.tracks@[r->Ok_0 as int].name@ == name@,
            r is Err ==> r->Err_0 <= self.tracks@.len() && !holds_name(self.tracks@, name@)
                && (forall|j: int| 0 <= j < r->Err_0 ==> name_before(#[trigger] self.tracks@[j].name@, name@))
                && (forall|j: int| r->Err_0 <= j < self.tracks@.len() ==> name_before(name@, #[trigger] self.tracks@[j].name@)),
    {
        let mut i: usize = 0;
        while i < self.tracks.len() && str_before(self.tracks[i].name.as_str(), name)
            invariant
                self.well_formed(),
                i <= self.tracks@.len(),
                forall|j: int| 0 <= j < i ==> name_before(#[trigger] self.tracks@[j].name@, name@),
            decreases self.tracks@.len() - i,
        {
            i = i + 1;
        }
        if i < self.tracks.len() && str_eq(self.tracks[i].name.as_str(), name) {
            return Ok(i);
        }
        let ghost s = self.tracks@;
        proof {
            if i < s.len() {
                lemma_name_before_total(s[i as int].name@, name@);
                assert forall|j: int| i <= j < s.len() implies name_before(name@, #[trigger] s[j].name@) by {
                    if j > i {
                        lemma_name_before_transitive(name@, s[i as int].name@, s[j].name@);
                    }
                }
            }
            assert forall|j: int| 0 <= j < s.len() implies #[trigger] s[j].name@ != name@ by {
                if j < i {
                    lemma_name_before_irreflexive(name@);
                } else {
                    lemma_name_before_irreflexive(name@);
                }
            }
        }
        Err(i)
    }

    /// Puts `track` at position `p`, which `find` gave for its name.
    fn insert_at(&mut self, p: usize, track: AudioTrack)
        requires
            old(self).well_formed(),
            p <= old(self).tracks@.len(),
            forall|j: int| 0 <= j < p ==> name_before(#[trigger] old(self).tracks@[j].name@, track.name@),
            forall|j: int| p <= j < old(self).tracks@.len() ==> name_before(track.name@, #[trigger] old(self).tracks@[j].name@),
            track.state.id < old(self).next_id,
            forall|j: int| 0 <= j < old(self).tracks@.len() ==> #[trigger] old(self).tracks@[j].state.id != track.state.id,
            lifecycle_valid(track.state.lifecycle),
        ensures
            final(self).well_formed(),
            final(self).tracks@ == old(self).tracks@.insert(p as int, track),
            final(self).next_id == old(self).next_id,
            final(self).model() == old(self).model().insert(track.name@, track.state),
    {
        let ghost s = self.tracks@;
        self.tracks.insert(p, track);
        let ghost t = self.tracks@;
        assert forall|i: int, j: int| 0 <= i < j < t.len() implies name_before(#[trigger] t[i].name@, #[trigger] t[j].name@) by {
            if i < p && j > p {
                lemma_name_before_transitive(t[i].name@, track.name@, t[j].name@);
            }
        }
        assert forall|i: int, j: int|
            0 <= i < t.len() && 0 <= j < t.len() && i != j implies #[trigger] t[i].state.id != #[trigger] t[j].state.id by {
        }
        assert forall|i: int| 0 <= i < t.len() implies #[trigger] t[i].state.id < self.next_id by {
        }
        assert forall|i: int| 0 <= i < t.len() implies lifecycle_valid(#[trigger] t[i].state.lifecycle) by {
        }
        proof {
            let m = seq_model(s).insert(track.name@, track.state);
            assert forall|i: int| 0 <= i < t.len() implies m.contains_key(#[trigger] t[i].name@) && m[t[i].name@] == t[i].state by {
                lemma_name_before_irreflexive(track.name@);
                if i < p {
                    assert(t[i] == s[i]);
                    assert(name_before(s[i].name@, track.name@));
                    lemma_seq_model_at(s, i);
                } else if i > p {
                    assert(t[i] == s[i - 1]);
                    assert(name_before(track.name@, s[i - 1].name@));
                    lemma_seq_model_at(s, i - 1);
                }
            }
            assert forall|k: Seq<char>| m.contains_key(k) implies holds_name(t, k) by {
                if k == track.name@ {
                    assert(t[p as int].name@ == k);
                } else {
                    let i = choose|i: int| 0 <= i < s.len() && #[trigger] s[i].name@ == k;
                    if i < p {
                        assert(t[i].name@ == k);
                    } else {
                        assert(t[i + 1].name@ == k);
                    }
                }
            }
            lemma_seq_model_ext(t, m);
        }
    }

    /// Takes out track `i`.
    fn remove_at(&mut self, i: usize) -> (r: AudioTrack)
        requires
            old(self).well_formed(),
            i < old(self).tracks@.len(),
        ensures
            final(self).well_formed(),
            r == old(self).tracks@[i as int],
            final(self).tracks@ == old(self).tracks@.remove(i as int),
            final(self).next_id == old(self).next_id,
            final(self).model() == old(self).model().remove(r.name@),
            forall|j: int| 0 <= j < final(self).tracks@.len() ==> #[trigger] final(self).tracks@[j].state.id != r.state.id,
    {
        let ghost s = self.tracks@;
        let r = self.tracks.remove(i);
        let ghost t = self.tracks@;
        assert forall|a: int, b: int| 0 <= a < b < t.len() implies name_before(#[trigger] t[a].name@, #[trigger] t[b].name@) by {
            let a0 = if a < i { a } else { a + 1 };
            let b0 = if b < i { b } else { b + 1 };
            assert(name_before(s[a0].name@, s[b0].name@));
        }
        assert forall|a: int, b: int|
            0 <= a < t.len() && 0 <= b < t.len() && a != b implies #[trigger] t[a].state.id != #[trigger] t[b].state.id by {
            let a0 = if a < i { a } else { a + 1 };
            let b0 = if b < i { b } else { b + 1 };
            assert(s[a0].state.id != s[b0].state.id);
        }
        assert forall|a: int| 0 <= a < t.len() implies #[trigger] t[a].state.id != r.state.id by {
            let a0 = if a < i { a } else { a + 1 };
            assert(s[a0].state.id != s[i as int].state.id);
        }
        assert forall|a: int| 0 <= a < t.len() implies #[trigger] t[a].state.id < self.next_id by {
            let a0 = if a < i { a } else { a + 1 };
            assert(s[a0].state.id < self.next_id);
        }
        assert forall|a: int| 0 <= a < t.len() implies lifecycle_valid(#[trigger] t[a].state.lifecycle) by {
            let a0 = if a < i { a } else { a + 1 };
            assert(lifecycle_valid(s[a0].state.lifecycle));
        }
        proof {
            let m = seq_model(s).remove(r.name@);
            assert forall|a: int| 0 <= a < t.len() implies m.contains_key(#[trigger] t[a].name@) && m[t[a].name@] == t[a].state by {
                let a0 = if a < i { a } else { a + 1 };
                lemma_seq_model_at(s, a0);
                lemma_names_distinct(s, a0, i as int);
            }
            assert forall|k: Seq<char>| m.contains_key(k) implies holds_name(t, k) by {
                let a0 = choose|a: int| 0 <= a < s.len() && #[trigger] s[a].name@ == k;
                if a0 < i {
                    assert(t[a0].name@ == k);
                } else {
                    assert(t[a0 - 1].name@ == k);
                }
            }
            lemma_seq_model_ext(t, m);
        }
        r
    }

    /// Adds an input track named `name` reading from `source`, with the default
    /// settings and idle, and returns its id. Fails when the name is taken.
    pub fn add_track(&mut self, name: &str, source: AudioSourceRaw) -> (r: Result<u64, TrackError>)
        requires
            old(self).well_formed(),
        ensures
            final(self).well_formed(),
            add_outcome(*old(self), *final(self), name@, source, r),
    {
        self.add_with(name, TrackType::In, source, TrackSettings::new())
    }

    /// Adds an idle track of the given kind, source and settings.
    fn add_with(&mut self, name: &str, track_type: TrackType, source: AudioSourceRaw, settings: TrackSettings) -> (r: Result<u64, TrackError>)
        requires
            old(self).well_formed(),
        ensures
            final(self).well_formed(),
            old(self).model().contains_key(name@) ==> r == Err::<u64, TrackError>(TrackError::NameTaken),
            !old(self).model().contains_key(name@) && old(self).next_id() == u64::MAX
                ==> r == Err::<u64, TrackError>(TrackError::IdsExhausted),
            !old(self).model().contains_key(name@) && old(self).next_id() < u64::MAX ==> r == Ok::<u64, TrackError>(old(self).next_id()),
            r is Err ==> final(self).model() == old(self).model() && final(self).next_id() == old(self).next_id(),
            r is Ok ==> final(self).model() == old(self).model().insert(
                name@,
                TrackState {
                    id: r->Ok_0,
                    track_type: track_type,
                    source: source,
                    settings: settings,
                    lifecycle: idle(),
                },
            ) && final(self).next_id() == old(self).next_id() + 1,
    {
        match self.find(name) {
            Ok(i) => {
                proof {
                    lemma_seq_model_at(self.tracks@, i as int);
                }
                Err(TrackError::NameTaken)
            },
            Err(p) => {
                proof {
                    if self.model().contains_key(name@) {
                        assert(holds_name(self.tracks@, name@));
                    }
                }
                if self.next_id == u64::MAX {
                    return Err(TrackError::IdsExhausted);
                }
                let id = self.next_id;
                let track = AudioTrack {
                    name: name.to_owned(),
                    state: TrackState {
                        id,
                        track_type: track_type,
                        source,
                        settings,
                        lifecycle: Lifecycle::idle(),
                    },
                };
                self.next_id = id + 1;
                assert forall|i: int| 0 <= i < self.tracks@.len() implies #[trigger] self.tracks@[i].state.id < self.next_id by {
                }
                assert forall|i: int| 0 <= i < self.tracks@.len() implies #[trigger] self.tracks@[i].state.id != id by {
                }
                self.insert_at(p, track);
                Ok(id)
            },
        }
    }

    /// Takes the track named `name` out of the registry and hands it back, so that its
    /// stream can be stopped and its files closed; `None` when there is no such track.
    pub fn remove_track(&mut self, name: &str) -> (r: Option<AudioTrack>)
        requires
            old(self).well_formed(),
        ensures
            final(self).well_formed(),
            final(self).next_id() == old(self).next_id(),
            old(self).model().contains_key(name@) <==> r is Some,
            r is Some ==> r->0.name@ == name@ && r->0.state == old(self).model()[name@],
            final(self).model() == old(self).model().remove(name@),
    {
        match self.find(name) {
            Ok(i) => {
                proof {
                    lemma_seq_model_at(self.tracks@, i as int);
                }
                let t = self.remove_at(i);
                Some(t)
            },
            Err(_) => {
                proof {
                    if self.model().contains_key(name@) {
                        assert(holds_name(self.tracks@, name@));
                    }
                    assert(self.model().remove(name@) =~= self.model());
                }
                None
            },
        }
    }

    /// A copy of the track named `name`, or `None`.
    pub fn get_track(&self, name: &str) -> (r: Option<AudioTrack>)
        requires
            self.well_formed(),
        ensures
            self.model().contains_key(name@) <==> r is Some,
            r is Some ==> r->0.name@ == name@ && r->0.state == self.model()[name@],
    {
        match self.find(name) {
            Ok(i) => {
                proof {
                    lemma_seq_model_at(self.tracks@, i as int);
                }
                Some(self.tracks[i].duplicate())
            },
            Err(_) => {
                proof {
                    if self.model().contains_key(name@) {
                        assert(holds_name(self.tracks@, name@));
                    }
                }
                None
            },
        }
    }

    /// Gives track `i` a new state under the same name and id.
    fn set_state(&mut self, i: usize, settings: TrackSettings, lifecycle: Lifecycle)
        requires
            old(self).well_formed(),
            i < old(self).tracks@.len(),
            lifecycle_valid(lifecycle),
        ensures
            final(self).well_formed(),
            final(self).next_id == old(self).next_id,
            final(self).model() == old(self).model().insert(
                old(self).tracks@[i as int].name@,
                TrackState { settings: settings, lifecycle: lifecycle, ..old(self).tracks@[i as int].state },
            ),
    {
        let ghost s = self.tracks@;
        self.tracks[i].state.settings = settings;
        self.tracks[i].state.lifecycle = lifecycle;
        let ghost t = self.tracks@;
        assert forall|a: int| 0 <= a < t.len() implies #[trigger] t[a].name@ == s[a].name@ && t[a].state.id == s[a].state.id by {
        }
        assert forall|a: int, b: int| 0 <= a < b < t.len() implies name_before(#[trigger] t[a].name@, #[trigger] t[b].name@) by {
            assert(t[a].name@ == s[a].name@ && t[b].name@ == s[b].name@);
        }
        assert forall|a: int, b: int|
            0 <= a < t.len() && 0 <= b < t.len() && a != b implies #[trigger] t[a].state.id != #[trigger] t[b].state.id by {
            assert(t[a].state.id == s[a].state.id && t[b].state.id == s[b].state.id);
        }
        assert forall|a: int| 0 <= a < t.len() implies #[trigger] t[a].state.id < self.next_id by {
            assert(t[a].state.id == s[a].state.id);
        }
        assert forall|a: int| 0 <= a < t.len() implies lifecycle_valid(#[trigger] t[a].state.lifecycle) by {
            if a != i {
                assert(t[a] == s[a]);
            }
        }
        proof {
            let m = seq_model(s).insert(s[i as int].name@, t[i as int].state);
            assert forall|a: int| 0 <= a < t.len() implies m.contains_key(#[trigger] t[a].name@) && m[t[a].name@] == t[a].state by {
                assert(t[a].name@ == s[a].name@);
                lemma_seq_model_at(s, a);
                if a != i {
                    lemma_names_distinct(s, a, i as int);
                }
            }
            assert forall|k: Seq<char>| m.contains_key(k) implies holds_name(t, k) by {
                if k == s[i as int].name@ {
                    assert(t[i as int].name@ == k);
                } else {
                    let a = choose|a: int| 0 <= a < s.len() && #[trigger] s[a].name@ == k;
                    assert(t[a].name@ == k);
                }
            }
            lemma_seq_model_ext(t, m);
        }
    }

    /// Applies one update to the track named `track_name` and returns what the engine
    /// must then do to its live resources. A monitor or record update starts or stops
    /// the stream and opens or finalizes the recording sink as the new settings call
    /// for; every other update asks for nothing. A rename keeps the same live track
    /// under the new name.
    pub fn update_track(&mut self, track_name: &str, update: TrackUpdate) -> (r: Result<StreamAction, TrackError>)
        requires
            old(self).well_formed(),
        ensures
            final(self).well_formed(),
            update_outcome(*old(self), *final(self), track_name@, update, r),
    {
        let ghost old_model = self.model();
        let i = match self.find(track_name) {
            Ok(i) => i,
            Err(_) => {
                proof {
                    if self.model().contains_key(track_name@) {
                        assert(holds_name(self.tracks@, track_name@));
                    }
                }
                return Err(TrackError::UnknownTrack);
            },
        };
        proof {
            lemma_seq_model_at(self.tracks@, i as int);
        }
        let id = self.tracks[i].state.id;
        let from = self.tracks[i].state.lifecycle;
        match update {
            TrackUpdate::Name(new_name) => {
                if str_eq(new_name.as_str(), track_name) {
                    return Ok(StreamAction::between(id, from, from));
                }
                match self.find(new_name.as_str()) {
                    Ok(j) => {
                        proof {
                            lemma_seq_model_at(self.tracks@, j as int);
                        }
                        Err(TrackError::NameTaken)
                    },
                    Err(_) => {
                        proof {
                            if self.model().contains_key(new_name@) {
                                assert(holds_name(self.tracks@, new_name@));
                            }
                        }
                        let ghost before = self.tracks@;
                        let mut t = self.remove_at(i);
                        let ghost removed = self.model();
                        t.name = new_name;
                        match self.find(t.name.as_str()) {
                            Ok(j) => {
                                proof {
                                    let a0 = if j < i { j as int } else { j + 1 };
                                    assert(before[a0].name@ == t.name@);
                                }
                                Err(TrackError::NameTaken)
                            },
                            Err(p) => {
                                assert forall|a: int| 0 <= a < self.tracks@.len() implies #[trigger] self.tracks@[a].state.id != t.state.id by {
                                }
                                self.insert_at(p, t);
                                proof {
                                    assert(old_model.remove(track_name@) == removed);
                                }
                                Ok(StreamAction::between(id, from, from))
                            },
                        }
                    },
                }
            },
            other => {
                let drives = match &other {
                    TrackUpdate::Monitor(_) => true,
                    TrackUpdate::Record(_) => true,
                    _ => false,
                };
                let mut settings = self.tracks[i].state.settings;
                settings.apply(&other);
                let to = if drives { Lifecycle::wanted(&settings) } else { from };
                self.set_state(i, settings, to);
                proof {
                    let st = old_model[track_name@];
                    assert(updated_state(st, other) == TrackState { settings: settings, lifecycle: to, ..st });
                }
                Ok(StreamAction::between(id, from, to))
            },
        }
    }

    /// The listing rows, in name order.
    pub open spec fn listing(&self) -> Seq<TrackInfo> {
        self.entries().map_values(|t: AudioTrack| info_of(t))
    }

    /// The names of all tracks, sorted.
    pub fn track_list(&self) -> (r: Vec<String>)
        requires
            self.well_formed(),
        ensures
            r@.len() == self.listing().len(),
            forall|i: int| 0 <= i < r@.len() ==> #[trigger] r@[i] == self.listing()[i].name,
    {
        let mut r: Vec<String> = Vec::new();
        let mut i: usize = 0;
        while i < self.tracks.len()
            invariant
                i <= self.tracks@.len(),
                r@.len() == i,
                forall|j: int| 0 <= j < i ==> #[trigger] r@[j] == self.tracks@[j].name,
            decreases self.tracks@.len() - i,
        {
            r.push(self.tracks[i].name.clone());
            i = i + 1;
        }
        r
    }

    /// The listing of every track, ordered by name.
    pub fn as_response(&self) -> (r: TrackListResponse)
        requires
            self.well_formed(),
        ensures
            r.tracks@ == self.listing(),
    {
        let mut tracks: Vec<TrackInfo> = Vec::new();
        let mut i: usize = 0;
        while i < self.tracks.len()
            invariant
                i <= self.tracks@.len(),
                tracks@ == self.tracks@.take(i as int).map_values(|t: AudioTrack| info_of(t)),
            decreases self.tracks@.len() - i,
        {
            let t = &self.tracks[i];
            let info = TrackInfo {
                name: t.name.clone(),
                track_type: t.state.track_type,
                gain: t.state.settings.gain,
                pan: t.state.settings.pan,
                monitor: t.state.settings.monitor,
                solo: t.state.settings.solo,
                mute: t.state.settings.mute,
                record: t.state.settings.record,
            };
            tracks.push(info);
            assert(tracks@ =~= self.tracks@.take(i + 1).map_values(|t: AudioTrack| info_of(t)));
            i = i + 1;
        }
        assert(self.tracks@.take(i as int) =~= self.tracks@);
        TrackListResponse { tracks }
    }

    /// Stops the stream of every running track, finalizing any open recording, and
    /// returns the steps for the engine. On a registry where nothing runs it asks for
    /// nothing and changes nothing.
    pub fn stop_stream(&mut self) -> (r: Vec<StreamAction>)
        requires
            old(self).well_formed(),
        ensures
            final(self).well_formed(),
            final(self).next_id() == old(self).next_id(),
            final(self).entries() == old(self).entries().map_values(|t: AudioTrack| stopped_track(t)),
            r@ == stop_actions(old(self).entries()),
    {
        let ghost s = self.tracks@;
        let mut r: Vec<StreamAction> = Vec::new();
        let mut i: usize = 0;
        while i < self.tracks.len()
            invariant
                self.tracks@.len() == s.len(),
                self.next_id == old(self).next_id,
                i <= s.len(),
                forall|j: int| 0 <= j < i ==> #[trigger] self.tracks@[j] == stopped_track(s[j]),
                forall|j: int| i <= j < s.len() ==> #[trigger] self.tracks@[j] == s[j],
                r@ == stop_actions(s.take(i as int)),
            decreases s.len() - i,
        {
            let from = self.tracks[i].state.lifecycle;
            let id = self.tracks[i].state.id;
            assert(s.take(i + 1).drop_last() =~= s.take(i as int));
            if from.streaming {
                r.push(StreamAction::between(id, from, Lifecycle::idle()));
            }
            self.tracks[i].state.lifecycle = Lifecycle::idle();
            i = i + 1;
        }
        assert(s.take(i as int) =~= s);
        assert(self.tracks@ =~= s.map_values(|t: AudioTrack| stopped_track(t)));
        let ghost t = self.tracks@;
        assert forall|a: int, b: int| 0 <= a < b < t.len() implies name_before(#[trigger] t[a].name@, #[trigger] t[b].name@) by {
            assert(t[a].name == s[a].name && t[b].name == s[b].name);
        }
        assert forall|a: int, b: int|
            0 <= a < t.len() && 0 <= b < t.len() && a != b implies #[trigger] t[a].state.id != #[trigger] t[b].state.id by {
            assert(t[a].state.id == s[a].state.id && t[b].state.id == s[b].state.id);
        }
        assert forall|a: int| 0 <= a < t.len() implies #[trigger] t[a].state.id < self.next_id by {
            assert(t[a].state.id == s[a].state.id);
        }
        assert forall|a: int| 0 <= a < t.len() implies lifecycle_valid(#[trigger] t[a].state.lifecycle) by {
            assert(t[a] == stopped_track(s[a]));
        }
        r
    }

    /// Starts the stream of every track that is monitored or recorded but not running
    /// as its settings call for, opening a recording sink where it is recorded, and
    /// returns the steps for the engine.
    pub fn start_stream(&mut self) -> (r: Vec<StreamAction>)
        requires
            old(self).well_formed(),
        ensures
            final(self).well_formed(),
            final(self).next_id() == old(self).next_id(),
            final(self).entries() == old(self).entries().map_values(|t: AudioTrack| started_track(t)),
            r@ == start_actions(old(self).entries()),
    {
        let ghost s = self.tracks@;
        let mut r: Vec<StreamAction> = Vec::new();
        let mut i: usize = 0;
        while i < self.tracks.len()
            invariant
                self.tracks@.len() == s.len(),
                self.next_id == old(self).next_id,
                i <= s.len(),
                forall|j: int| 0 <= j < i ==> #[trigger] self.tracks@[j] == started_track(s[j]),
                forall|j: int| i <= j < s.len() ==> #[trigger] self.tracks@[j] == s[j],
                r@ == start_actions(s.take(i as int)),
            decreases s.len() - i,
        {
            let from = self.tracks[i].state.lifecycle;
            let id = self.tracks[i].state.id;
            let to = Lifecycle::wanted(&self.tracks[i].state.settings);
            assert(s.take(i + 1).drop_last() =~= s.take(i as int));
            if to.streaming && from != to {
                r.push(StreamAction::between(id, from, to));
                self.tracks[i].state.lifecycle = to;
            }
            i = i + 1;
        }
        assert(s.take(i as int) =~= s);
        assert(self.tracks@ =~= s.map_values(|t: AudioTrack| started_track(t)));
        let ghost t = self.tracks@;
        assert forall|a: int, b: int| 0 <= a < b < t.len() implies name_before(#[trigger] t[a].name@, #[trigger] t[b].name@) by {
            assert(t[a].name == s[a].name && t[b].name == s[b].name);
        }
        assert forall|a: int, b: int|
            0 <= a < t.len() && 0 <= b < t.len() && a != b implies #[trigger] t[a].state.id != #[trigger] t[b].state.id by {
            assert(t[a].state.id == s[a].state.id && t[b].state.id == s[b].state.id);
        }
        assert forall|a: int| 0 <= a < t.len() implies #[trigger] t[a].state.id < self.next_id by {
            assert(t[a].state.id == s[a].state.id);
        }
        assert forall|a: int| 0 <= a < t.len() implies lifecycle_valid(#[trigger] t[a].state.lifecycle) by {
            assert(t[a] == started_track(s[a]));
        }
        r
    }

    /// Whether some track is soloed.
    pub fn solo_active(&self) -> (r: bool)
        ensures
            r == any_solo(self.entries()),
    {
        let mut i: usize = 0;
        while i < self.tracks.len()
            invariant
                i <= self.tracks@.len(),
                forall|j: int| 0 <= j < i ==> !(#[trigger] self.tracks@[j].state.settings.solo),
            decreases self.tracks@.len() - i,
        {
            if self.tracks[i].state.settings.solo {
                return true;
            }
            i = i + 1;
        }
        false
    }

    /// The ids of the tracks heard in the mix, in name order: those not muted and, when
    /// some track is soloed, soloed too.
    pub fn contributors(&self) -> (r: Vec<u64>)
        ensures
            r@ == contributing_ids(self.entries(), any_solo(self.entries())),
    {
        let solo = self.solo_active();
        let ghost s = self.tracks@;
        let mut r: Vec<u64> = Vec::new();
        let mut i: usize = 0;
        while i < self.tracks.len()
            invariant
                s == self.tracks@,
                solo == any_solo(s),
                i <= s.len(),
                r@ == contributing_ids(s.take(i as int), solo),
            decreases s.len() - i,
        {
            assert(s.take(i + 1).drop_last() =~= s.take(i as int));
            let settings = self.tracks[i].state.settings;
            if !settings.mute && (!solo || settings.solo) {
                r.push(self.tracks[i].state.id);
            }
            i = i + 1;
        }
        assert(s.take(i as int) =~= s);
        r
    }

    /// Every listing row names a track and shows its attributes, and every track has a
    /// row; the rows are in strict name order.
    pub proof fn lemma_listing(&self)
        requires
            self.well_formed(),
        ensures
            forall|i: int| 0 <= i < self.listing().len() ==> self.model().contains_key(#[trigger] self.listing()[i].name@)
                && info_shows(self.listing()[i], self.model()[self.listing()[i].name@]),
            forall|k: Seq<char>| #[trigger] self.model().contains_key(k)
                ==> exists|i: int| 0 <= i < self.listing().len() && #[trigger] self.listing()[i].name@ == k,
            forall|i: int, j: int| 0 <= i < j < self.listing().len()
                ==> name_before(#[trigger] self.listing()[i].name@, #[trigger] self.listing()[j].name@),
    {
        let s = self.tracks@;
        assert forall|i: int| 0 <= i < self.listing().len() implies self.model().contains_key(#[trigger] self.listing()[i].name@)
            && info_shows(self.listing()[i], self.model()[self.listing()[i].name@]) by {
            lemma_seq_model_at(s, i);
        }
        assert forall|k: Seq<char>| #[trigger] self.model().contains_key(k)
            implies exists|i: int| 0 <= i < self.listing().len() && #[trigger] self.listing()[i].name@ == k by {
            let i = index_of_name(s, k);
            assert(self.listing()[i].name@ == k);
        }
    }

    /// Renaming: after `update_track(name, Name(new_name))` succeeds, the listing has a
    /// row for `new_name` with the attributes that `name` had, and none for `name`.
    pub proof fn lemma_rename_listing(before: &TrackList, after: &TrackList, name: Seq<char>, new_name: Seq<char>)
        requires
            before.well_formed(),
            after.well_formed(),
            before.model().contains_key(name),
            name != new_name,
            after.model() == before.model().remove(name).insert(new_name, before.model()[name]),
        ensures
            exists|i: int| 0 <= i < after.listing().len() && #[trigger] after.listing()[i].name@ == new_name
                && info_shows(after.listing()[i], before.model()[name]),
            forall|i: int| 0 <= i < after.listing().len() ==> #[trigger] after.listing()[i].name@ != name,
    {
        after.lemma_listing();
        assert(after.model().contains_key(new_name));
        let i = choose|i: int| 0 <= i < after.listing().len() && #[trigger] after.listing()[i].name@ == new_name;
        assert(info_shows(after.listing()[i], after.model()[new_name]));
    }

    /// Solo precedence: while some track is soloed, a track that is not soloed is not
    /// among the contributors, muted or not.
    pub proof fn lemma_solo_precedence(&self, name: Seq<char>)
        requires
            self.well_formed(),
            any_solo(self.entries()),
            self.model().contains_key(name),
            !self.model()[name].settings.solo,
        ensures
            !contributing_ids(self.entries(), any_solo(self.entries())).contains(self.model()[name].id),
    {
        let s = self.tracks@;
        let k = index_of_name(s, name);
        lemma_seq_model_at(s, k);
        let x = self.model()[name].id;
        if contributing_ids(s, true).contains(x) {
            lemma_contributing_ids_member(s, true, x);
            let i = choose|i: int| 0 <= i < s.len() && #[trigger] s[i].state.id == x && contributes(s[i].state.settings, true);
            assert(i == k);
        }
    }

    /// The snapshot of every track, in name order.
    pub fn to_raw(&self) -> (r: Vec<AudioTrackRaw>)
        requires
            self.well_formed(),
        ensures
            r@ == self.entries().map_values(|t: AudioTrack| raw_of(t)),
    {
        let mut r: Vec<AudioTrackRaw> = Vec::new();
        let mut i: usize = 0;
        while i < self.tracks.len()
            invariant
                i <= self.tracks@.len(),
                r@ == self.tracks@.take(i as int).map_values(|t: AudioTrack| raw_of(t)),
            decreases self.tracks@.len() - i,
        {
            let t = &self.tracks[i];
            let raw = AudioTrackRaw {
                name: t.name.clone(),
                track_type: t.state.track_type,
                source: t.state.source.duplicate(),
                gain: t.state.settings.gain,
                pan: t.state.settings.pan,
                solo: t.state.settings.solo,
                monitor: t.state.settings.monitor,
                mute: t.state.settings.mute,
                record: t.state.settings.record,
            };
            r.push(raw);
            assert(r@ =~= self.tracks@.take(i + 1).map_values(|t: AudioTrack| raw_of(t)));
            i = i + 1;
        }
        assert(self.tracks@.take(i as int) =~= self.tracks@);
        r
    }

    /// Rebuilds a registry from a snapshot: each record becomes an idle track with its
    /// attributes and source, the `i`-th with id `i`. Fails when two records share a
    /// name.
    pub fn from_raw(raw: Vec<AudioTrackRaw>) -> (r: Result<TrackList, TrackError>)
        ensures
            r is Ok <==> raw_names_unique(raw@),
            r is Err ==> r->Err_0 == TrackError::NameTaken,
            r is Ok ==> r->Ok_0.well_formed() && r->Ok_0.model() == restored_model(raw@),
    {
        let mut list = TrackList::new();
        let mut i: usize = 0;
        while i < raw.len()
            invariant
                i <= raw@.len(),
                list.well_formed(),
                list.next_id() == i,
                raw_names_unique(raw@.take(i as int)),
                list.model() == restored_model(raw@.take(i as int)),
            decreases raw@.len() - i,
        {
            let rec = &raw[i];
            let settings = TrackSettings {
                gain: rec.gain,
                pan: rec.pan,
                mute: rec.mute,
                solo: rec.solo,
                monitor: rec.monitor,
                record: rec.record,
            };
            let ghost pre = raw@.take(i as int);
            let ghost post = raw@.take(i + 1);
            let ghost prev = list.model();
            match list.add_with(rec.name.as_str(), rec.track_type, rec.source.duplicate(), settings) {
                Ok(_) => {},
                Err(_) => {
                    proof {
                        let j = raw_index(pre, rec.name@);
                        assert(raw@[j].name@ == raw@[i as int].name@);
                    }
                    return Err(TrackError::NameTaken);
                },
            }
            proof {
                assert(!prev.contains_key(rec.name@));
                assert forall|a: int, b: int| 0 <= a < post.len() && 0 <= b < post.len() && a != b
                    implies #[trigger] post[a].name@ != #[trigger] post[b].name@ by {
                    if a < i && b < i {
                        assert(pre[a].name@ != pre[b].name@);
                    } else if a == i {
                        assert(pre[b].name@ == post[b].name@);
                    } else {
                        assert(pre[a].name@ == post[a].name@);
                    }
                }
                let m = prev.insert(rec.name@, restored_state(*rec, i as int));
                assert forall|k: Seq<char>| #[trigger] restored_model(post).contains_key(k) <==> m.contains_key(k) by {
                    if m.contains_key(k) && k != rec.name@ {
                        let a = raw_index(pre, k);
                        assert(post[a].name@ == k);
                    }
                    if restored_model(post).contains_key(k) {
                        let a = raw_index(post, k);
                        if a < i {
                            assert(pre[a].name@ == k);
                        }
                    }
                }
                assert forall|k: Seq<char>| #[trigger] restored_model(post).contains_key(k) implies restored_model(post)[k] == m[k] by {
                    let a = raw_index(post, k);
                    if k == rec.name@ {
                        assert(post[i as int].name@ == k);
                    } else {
                        assert(a != i);
                        assert(pre[a].name@ == k);
                        let b = raw_index(pre, k);
                        assert(post[b].name@ == k);
                        assert(a == b);
                    }
                }
                assert(restored_model(post) =~= m);
            }
            i = i + 1;
        }
        assert(raw@.take(i as int) =~= raw@);
        Ok(list)
    }

    /// A snapshot restores what it was taken of: the same track names, each with the
    /// same kind, source and settings.
    pub proof fn lemma_snapshot_round_trip(&self)
        requires
            self.well_formed(),
        ensures
            raw_names_unique(self.entries().map_values(|t: AudioTrack| raw_of(t))),
            restored_model(self.entries().map_values(|t: AudioTrack| raw_of(t))).dom() == self.model().dom(),
            forall|k: Seq<char>| #[trigger] self.model().contains_key(k) ==> persisted_part(
                restored_model(self.entries().map_values(|t: AudioTrack| raw_of(t)))[k],
            ) == persisted_part(self.model()[k]),
    {
        let s = self.tracks@;
        let raws = s.map_values(|t: AudioTrack| raw_of(t));
        assert forall|i: int, j: int| 0 <= i < raws.len() && 0 <= j < raws.len() && i != j
            implies #[trigger] raws[i].name@ != #[trigger] raws[j].name@ by {
            lemma_names_distinct(s, i, j);
        }
        let rm = restored_model(raws);
        assert forall|k: Seq<char>| #[trigger] rm.contains_key(k) <==> self.model().contains_key(k) by {
            if rm.contains_key(k) {
                let i = raw_index(raws, k);
                assert(s[i].name@ == k);
            }
            if self.model().contains_key(k) {
                let i = index_of_name(s, k);
                assert(raws[i].name@ == k);
            }
        }
        assert(rm.dom() =~= self.model().dom());
        assert forall|k: Seq<char>| #[trigger] self.model().contains_key(k) implies persisted_part(rm[k]) == persisted_part(self.model()[k]) by {
            let i = raw_index(raws, k);
            assert(raws[i].name@ == k);
            lemma_seq_model_at(s, i);
        }
    }
}

} // verus!
