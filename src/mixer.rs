use vstd::prelude::*;
use vstd::string::*;

use crate::text::{
    append_decimal, decimal_chars, lemma_name_before_total, lemma_name_before_transitive, name_before,
    str_before, str_eq,
};
use crate::track::{
    AudioSourceRaw, AudioTrack, StreamAction, TrackState, TrackType, TrackUpdate, CENTER_PAN,
    UNITY_GAIN,
};
use crate::track_list::{
    add_outcome, persisted_part, raw_names_unique, raw_of, restored_model, stop_actions,
    update_outcome, AudioTrackRaw, TrackError, TrackInfo, TrackList, TrackListResponse,
};

verus! {

/// The fixed name of the master output track.
pub const MASTER_NAME: &'static str = "master-out";

/// The prefix of the names that new capture tracks get.
pub const EMPTY_TRACK_PREFIX: &'static str = "track-";

/// The name that the `n`-th capture track gets.
pub open spec fn empty_track_name(n: nat) -> Seq<char> {
    EMPTY_TRACK_PREFIX@ + decimal_chars(n)
}

/// Whether `info` is the listing row of master output `m`.
pub open spec fn master_row(info: TrackInfo, m: OutputTrack) -> bool {
    &&& info.name@ == MASTER_NAME@
    &&& info.track_type == TrackType::MasterOut
    &&& info.gain == m.gain
    &&& info.pan == m.pan
    &&& !info.monitor && !info.solo && !info.mute && !info.record
}

/// The master output after an update: gain and pan apply, the rest is ignored.
pub open spec fn master_updated(m: OutputTrack, u: TrackUpdate) -> OutputTrack {
    match u {
        TrackUpdate::Gain(g) => OutputTrack { gain: g, ..m },
        TrackUpdate::Pan(p) => OutputTrack { pan: p, ..m },
        _ => m,
    }
}

/// The registry's answer inside a project's answer, where input tracks always get one.
pub open spec fn registry_result(r: Result<Option<StreamAction>, TrackError>) -> Result<StreamAction, TrackError> {
    match r {
        Ok(Some(a)) => Ok(a),
        Ok(None) => Err(TrackError::UnknownTrack),
        Err(e) => Err(e),
    }
}

/// The master output: the mix of every heard track goes through its gain and pan to
/// the selected playback device.
#[derive(Clone, Copy, Debug, PartialEq, Eq, Structural)]
pub struct OutputTrack {
    pub gain: u32,
    pub pan: u32,
}

impl OutputTrack {
    /// Unity gain, centred.
    pub fn new() -> (r: Self)
        ensures
            r.gain == UNITY_GAIN,
            r.pan == CENTER_PAN,
    {
        OutputTrack { gain: UNITY_GAIN, pan: CENTER_PAN }
    }

    /// The listing row of the master output.
    pub fn as_response(&self) -> (r: TrackInfo)
        ensures
            master_row(r, *self),
    {
        TrackInfo {
            name: String::from_str(MASTER_NAME),
            track_type: TrackType::MasterOut,
            gain: self.gain,
            pan: self.pan,
            monitor: false,
            solo: false,
            mute: false,
            record: false,
        }
    }
}

/// The persisted form of a project: every input track, by its snapshot record.
#[derive(Clone, Debug)]
pub struct StateMixerRaw {
    pub track_list: Vec<AudioTrackRaw>,
}

/// The project: the input tracks and the master output.
pub struct StateMixer {
    pub track_list: TrackList,
    pub master_out: OutputTrack,
}

impl StateMixer {
    pub open spec fn well_formed(&self) -> bool {
        &&& self.track_list.well_formed()
        &&& !self.track_list.model().contains_key(MASTER_NAME@)
    }

    /// A project with no input tracks and the master output at unity gain.
    pub fn new() -> (r: Self)
        ensures
            r.well_formed(),
            r.track_list.model() == Map::<Seq<char>, TrackState>::empty(),
            r.track_list.next_id() == 0,
            r.master_out.gain == UNITY_GAIN,
            r.master_out.pan == CENTER_PAN,
    {
        StateMixer { track_list: TrackList::new(), master_out: OutputTrack::new() }
    }

    /// The listing: the master output and every input track, ordered by name.
    pub fn get_track_list(&self) -> (r: TrackListResponse)
        requires
            self.well_formed(),
        ensures
            r.tracks@.len() == self.track_list.listing().len() + 1,
            forall|i: int, j: int| 0 <= i < j < r.tracks@.len()
                ==> name_before(#[trigger] r.tracks@[i].name@, #[trigger] r.tracks@[j].name@),
            exists|p: int| 0 <= p < r.tracks@.len() && master_row(#[trigger] r.tracks@[p], self.master_out)
                && r.tracks@.remove(p) == self.track_list.listing(),
    {
        let mut response = self.track_list.as_response();
        let master = self.master_out.as_response();
        let ghost rows = response.tracks@;
        proof {
            self.track_list.lemma_listing();
            reveal_strlit("master-out");
        }
        let mut p: usize = 0;
        while p < response.tracks.len() && str_before(response.tracks[p].name.as_str(), MASTER_NAME)
            invariant
                response.tracks@ == rows,
                p <= rows.len(),
                forall|j: int| 0 <= j < p ==> name_before(#[trigger] rows[j].name@, MASTER_NAME@),
            decreases rows.len() - p,
        {
            p = p + 1;
        }
        proof {
            if p < rows.len() {
                assert(self.track_list.model().contains_key(rows[p as int].name@));
                lemma_name_before_total(rows[p as int].name@, MASTER_NAME@);
                assert forall|j: int| p <= j < rows.len() implies name_before(MASTER_NAME@, #[trigger] rows[j].name@) by {
                    if j > p {
                        lemma_name_before_transitive(MASTER_NAME@, rows[p as int].name@, rows[j].name@);
                    }
                }
            }
        }
        response.tracks.insert(p, master);
        let ghost t = response.tracks@;
        assert forall|i: int, j: int| 0 <= i < j < t.len() implies name_before(#[trigger] t[i].name@, #[trigger] t[j].name@) by {
            if i < p && j > p {
                assert(t[i] == rows[i] && t[j] == rows[j - 1]);
            } else if i > p {
                assert(t[i] == rows[i - 1] && t[j] == rows[j - 1]);
            } else if j < p {
                assert(t[i] == rows[i] && t[j] == rows[j]);
            }
        }
        assert(t.remove(p as int) =~= rows);
        assert(master_row(t[p as int], self.master_out));
        response
    }

    /// Applies an update to the named track. On the master output only gain and pan
    /// apply, and the rest are ignored; there is then no stream step (`None`). Input
    /// tracks go to the registry; a rename to the master output's name is refused.
    pub fn update_track(&mut self, track_name: &str, update: TrackUpdate) -> (r: Result<Option<StreamAction>, TrackError>)
        requires
            old(self).well_formed(),
        ensures
            final(self).well_formed(),
            track_name@ == MASTER_NAME@ ==> r == Ok::<Option<StreamAction>, TrackError>(None)
                && final(self).track_list.model() == old(self).track_list.model()
                && final(self).master_out == master_updated(old(self).master_out, update),
            track_name@ != MASTER_NAME@ && update is Name && update->Name_0@ == MASTER_NAME@
                && old(self).track_list.model().contains_key(track_name@)
                ==> r == Err::<Option<StreamAction>, TrackError>(TrackError::NameTaken)
                && final(self).track_list.model() == old(self).track_list.model(),
            track_name@ != MASTER_NAME@ && update is Name && update->Name_0@ == MASTER_NAME@
                && !old(self).track_list.model().contains_key(track_name@)
                ==> r == Err::<Option<StreamAction>, TrackError>(TrackError::UnknownTrack)
                && final(self).track_list.model() == old(self).track_list.model(),
            track_name@ != MASTER_NAME@ ==> final(self).master_out == old(self).master_out,
            track_name@ != MASTER_NAME@ && !(update is Name && update->Name_0@ == MASTER_NAME@) ==> r != Ok::<
                Option<StreamAction>,
                TrackError,
            >(None) && update_outcome(old(self).track_list, final(self).track_list, track_name@, update, registry_result(r)),
    {
        if str_eq(track_name, MASTER_NAME) {
            match update {
                TrackUpdate::Gain(g) => self.master_out.gain = g,
                TrackUpdate::Pan(p) => self.master_out.pan = p,
                _ => {},
            }
            return Ok(None);
        }
        let renames_to_master = match &update {
            TrackUpdate::Name(n) => str_eq(n.as_str(), MASTER_NAME),
            _ => false,
        };
        if renames_to_master {
            return match self.track_list.get_track(track_name) {
                Some(_) => Err(TrackError::NameTaken),
                None => Err(TrackError::UnknownTrack),
            };
        }
        let ghost before = self.track_list;
        let r = self.track_list.update_track(track_name, update);
        proof {
            if self.track_list.model().contains_key(MASTER_NAME@) {
                assert(before.model().contains_key(MASTER_NAME@) || MASTER_NAME@ == track_name@ || (update is Name
                    && update->Name_0@ == MASTER_NAME@));
            }
        }
        match r {
            Ok(a) => Ok(Some(a)),
            Err(e) => Err(e),
        }
    }

    /// Adds an input track named `name` reading from `source`. The master output's name
    /// is taken.
    pub fn add_track(&mut self, name: &str, source: AudioSourceRaw) -> (r: Result<u64, TrackError>)
        requires
            old(self).well_formed(),
        ensures
            final(self).well_formed(),
            final(self).master_out == old(self).master_out,
            name@ == MASTER_NAME@ ==> r == Err::<u64, TrackError>(TrackError::NameTaken),
            name@ != MASTER_NAME@ ==> add_outcome(old(self).track_list, final(self).track_list, name@, source, r),
            name@ == MASTER_NAME@ ==> final(self).track_list == old(self).track_list,
    {
        if str_eq(name, MASTER_NAME) {
            return Err(TrackError::NameTaken);
        }
        self.track_list.add_track(name, source)
    }

    /// Adds a capture track on input device `device`, named `track-<n>` where `n` is
    /// one more than the number of input tracks.
    pub fn add_empty_track(&mut self, device: String) -> (r: Result<u64, TrackError>)
        requires
            old(self).well_formed(),
        ensures
            final(self).well_formed(),
            final(self).master_out == old(self).master_out,
            old(self).track_list.model().dom().len() >= u64::MAX ==> r == Err::<u64, TrackError>(TrackError::IdsExhausted)
                && final(self).track_list == old(self).track_list,
            old(self).track_list.model().dom().len() < u64::MAX ==> add_outcome(
                old(self).track_list,
                final(self).track_list,
                empty_track_name(old(self).track_list.model().dom().len() + 1),
                AudioSourceRaw::Stream(device),
                r,
            ),
    {
        let n = self.track_list.len();
        if n as u64 >= u64::MAX {
            return Err(TrackError::IdsExhausted);
        }
        let mut name = String::from_str(EMPTY_TRACK_PREFIX);
        append_decimal(&mut name, n as u64 + 1);
        proof {
            assert(!(name@ == MASTER_NAME@)) by {
                reveal_strlit("master-out");
                reveal_strlit("track-");
                assert(name@[0] == 't');
                assert(MASTER_NAME@[0] == 'm');
            }
        }
        self.track_list.add_track(name.as_str(), AudioSourceRaw::Stream(device))
    }

    /// The snapshot of the project.
    pub fn to_snapshot(&self) -> (r: StateMixerRaw)
        requires
            self.well_formed(),
        ensures
            r.track_list@ == self.track_list.entries().map_values(|t: AudioTrack| raw_of(t)),
    {
        StateMixerRaw { track_list: self.track_list.to_raw() }
    }

    /// Replaces the input tracks with those of a snapshot, and returns the steps that
    /// stop the replaced tracks. Fails, changing nothing, when two records share a name
    /// or one is named like the master output.
    pub fn load_snapshot(&mut self, raw: StateMixerRaw) -> (r: Result<Vec<StreamAction>, TrackError>)
        requires
            old(self).well_formed(),
        ensures
            final(self).well_formed(),
            final(self).master_out == old(self).master_out,
            r is Err ==> final(self).track_list == old(self).track_list && r->Err_0 == TrackError::NameTaken,
            r is Ok <==> raw_names_unique(raw.track_list@)
                && !restored_model(raw.track_list@).contains_key(MASTER_NAME@),
            r is Ok ==> final(self).track_list.model() == restored_model(raw.track_list@)
                && r->Ok_0@ == stop_actions(old(self).track_list.entries()),
    {
        match TrackList::from_raw(raw.track_list) {
            Ok(list) => {
                if list.get_track(MASTER_NAME).is_some() {
                    return Err(TrackError::NameTaken);
                }
                let actions = self.track_list.stop_stream();
                self.track_list = list;
                Ok(actions)
            },
            Err(e) => Err(e),
        }
    }

    /// Saving and loading: a project's own snapshot is accepted by `load_snapshot` and
    /// restores the same track names, each with the same kind, source (file path or
    /// device name), gain, pan, mute, solo, monitor and record.
    pub proof fn lemma_project_round_trip(&self)
        requires
            self.well_formed(),
        ensures
            raw_names_unique(self.track_list.entries().map_values(|t: AudioTrack| raw_of(t))),
            !restored_model(self.track_list.entries().map_values(|t: AudioTrack| raw_of(t))).contains_key(MASTER_NAME@),
            restored_model(self.track_list.entries().map_values(|t: AudioTrack| raw_of(t))).dom()
                == self.track_list.model().dom(),
            forall|k: Seq<char>| #[trigger] self.track_list.model().contains_key(k) ==> persisted_part(
                restored_model(self.track_list.entries().map_values(|t: AudioTrack| raw_of(t)))[k],
            ) == persisted_part(self.track_list.model()[k]),
    {
        self.track_list.lemma_snapshot_round_trip();
    }
}

} // verus!
