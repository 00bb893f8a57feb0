use vstd::prelude::*;

use crate::text::{after_last_dash, parse_index_spec, parse_last_segment, str_eq, str_starts_with};

verus! {

pub const OPEN_FILE_ID: &'static str = "file-open-file";

pub const SETTINGS_ID: &'static str = "preferences-settings";

pub const ADD_TRACK_ID: &'static str = "project-add-track";

pub const SAVE_PROJECT_ID: &'static str = "project-save-project";

pub const OPEN_PROJECT_ID: &'static str = "project-open-project";

/// The id of the `i`-th output device entry is this prefix followed by `i`.
pub const OUTPUT_DEVICE_PREFIX: &'static str = "preferences-output-device-";

/// The id of the `i`-th input device entry is this prefix followed by `i`.
pub const INPUT_DEVICE_PREFIX: &'static str = "preferences-input-device-";

/// What a menu entry asks for.
#[derive(Clone, Copy, Debug, PartialEq, Eq, Structural)]
pub enum MenuCommand {
    OpenFile,
    Settings,
    AddTrack,
    SaveProject,
    OpenProject,
    SelectOutputDevice,
    SelectInputDevice,
    Unknown,
}

/// Which device index a menu entry changed.
#[derive(Clone, Copy, Debug, PartialEq, Eq, Structural)]
pub enum DeviceRole {
    Input,
    Output,
}

/// The selected devices, by index into the device lists taken at startup.
#[derive(Clone, Copy, Debug, PartialEq, Eq, Structural)]
pub struct DeviceSelection {
    pub input_index: usize,
    pub output_index: usize,
}

pub open spec fn has_prefix(s: Seq<char>, p: Seq<char>) -> bool {
    p.len() <= s.len() && s.take(p.len() as int) == p
}

/// The command of the menu entry with id `id`.
pub open spec fn menu_command_spec(id: Seq<char>) -> MenuCommand {
    if id == OPEN_FILE_ID@ {
        MenuCommand::OpenFile
    } else if id == SETTINGS_ID@ {
        MenuCommand::Settings
    } else if id == ADD_TRACK_ID@ {
        MenuCommand::AddTrack
    } else if id == SAVE_PROJECT_ID@ {
        MenuCommand::SaveProject
    } else if id == OPEN_PROJECT_ID@ {
        MenuCommand::OpenProject
    } else if has_prefix(id, OUTPUT_DEVICE_PREFIX@) {
        MenuCommand::SelectOutputDevice
    } else if has_prefix(id, INPUT_DEVICE_PREFIX@) {
        MenuCommand::SelectInputDevice
    } else {
        MenuCommand::Unknown
    }
}

/// Tells which command a menu entry id stands for.
pub fn menu_command(id: &str) -> (r: MenuCommand)
    ensures
        r == menu_command_spec(id@),
{
    if str_eq(id, OPEN_FILE_ID) {
        MenuCommand::OpenFile
    } else if str_eq(id, SETTINGS_ID) {
        MenuCommand::Settings
    } else if str_eq(id, ADD_TRACK_ID) {
        MenuCommand::AddTrack
    } else if str_eq(id, SAVE_PROJECT_ID) {
        MenuCommand::SaveProject
    } else if str_eq(id, OPEN_PROJECT_ID) {
        MenuCommand::OpenProject
    } else if str_starts_with(id, OUTPUT_DEVICE_PREFIX) {
        MenuCommand::SelectOutputDevice
    } else if str_starts_with(id, INPUT_DEVICE_PREFIX) {
        MenuCommand::SelectInputDevice
    } else {
        MenuCommand::Unknown
    }
}

/// Whether the entry id `id` ends in a device index: the part after its last `'-'`
/// parses as one.
pub open spec fn ends_in_index(id: Seq<char>) -> bool {
    parse_index_spec(after_last_dash(id)) is Some
}

/// The index that ends the entry id `id`.
pub open spec fn trailing_index(id: Seq<char>) -> usize {
    parse_index_spec(after_last_dash(id))->0
}

/// Whether `id` is the id of a device entry with an index, which is what
/// `update_master_io_device_index` accepts.
pub open spec fn is_device_entry(id: Seq<char>) -> bool {
    &&& (menu_command_spec(id) == MenuCommand::SelectOutputDevice || menu_command_spec(id)
        == MenuCommand::SelectInputDevice)
    &&& ends_in_index(id)
}

/// Whether `id` is a device entry with an index, tested before calling
/// `update_master_io_device_index`.
pub fn is_device_entry_id(id: &str) -> (r: bool)
    ensures
        r == is_device_entry(id@),
{
    let c = menu_command(id);
    (c == MenuCommand::SelectOutputDevice || c == MenuCommand::SelectInputDevice) && parse_last_segment(id).is_some()
}

/// Stores in `device_index` the index that ends the entry id `id` (the part after its
/// last `'-'`). An id without one is a programming error that callers rule out.
pub fn update_device_index(device_index: &mut usize, id: &str)
    requires
        ends_in_index(id@),
    ensures
        *final(device_index) == trailing_index(id@),
{
    match parse_last_segment(id) {
        Some(i) => {
            *device_index = i;
        },
        None => {},
    }
}

/// Applies the device entry `id` to the selection: an output entry sets the output
/// index, an input entry the input index. Returns which one changed.
pub fn update_master_io_device_index(selection: &mut DeviceSelection, id: &str) -> (r: DeviceRole)
    requires
        is_device_entry(id@),
    ensures
        menu_command_spec(id@) == MenuCommand::SelectOutputDevice ==> r == DeviceRole::Output
            && *final(selection) == (DeviceSelection { output_index: trailing_index(id@), ..*old(selection) }),
        menu_command_spec(id@) == MenuCommand::SelectInputDevice ==> r == DeviceRole::Input
            && *final(selection) == (DeviceSelection { input_index: trailing_index(id@), ..*old(selection) }),
{
    if menu_command(id) == MenuCommand::SelectOutputDevice {
        update_device_index(&mut selection.output_index, id);
        DeviceRole::Output
    } else {
        update_device_index(&mut selection.input_index, id);
        DeviceRole::Input
    }
}

} // verus!
