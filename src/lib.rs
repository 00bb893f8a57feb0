//! A multi-track audio mixing engine: the sample ring buffer shared with device
//! callbacks, the track registry and its stream lifecycle, mix eligibility, recording
//! framing, persisted snapshots and menu command decoding.

pub mod menu;
pub mod mixer;
pub mod ring_buffer;
pub mod sink;
pub mod text;
pub mod track;
pub mod track_list;
