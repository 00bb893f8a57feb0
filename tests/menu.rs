use draw_mixer::menu::{
    is_device_entry_id, menu_command, update_device_index, update_master_io_device_index, DeviceRole,
    DeviceSelection, MenuCommand,
};
use draw_mixer::text::{parse_index, parse_last_segment, str_before};

#[test]
fn menu_ids_map_to_commands() {
    assert_eq!(menu_command("file-open-file"), MenuCommand::OpenFile);
    assert_eq!(menu_command("preferences-settings"), MenuCommand::Settings);
    assert_eq!(menu_command("project-add-track"), MenuCommand::AddTrack);
    assert_eq!(menu_command("project-save-project"), MenuCommand::SaveProject);
    assert_eq!(menu_command("project-open-project"), MenuCommand::OpenProject);
    assert_eq!(menu_command("preferences-output-device-2"), MenuCommand::SelectOutputDevice);
    assert_eq!(menu_command("preferences-input-device-0"), MenuCommand::SelectInputDevice);
    assert_eq!(menu_command("something-else"), MenuCommand::Unknown);
}

#[test]
fn device_index_is_the_last_segment() {
    let mut index: usize = 9;
    update_device_index(&mut index, "preferences-output-device-3");
    assert_eq!(index, 3);
    update_device_index(&mut index, "12");
    assert_eq!(index, 12);
    assert_eq!(parse_last_segment("preferences-output-device-x"), None);
    assert_eq!(parse_last_segment("preferences-output-device-"), None);
    assert_eq!(parse_last_segment("preferences-input-device-7"), Some(7));
}

#[test]
fn master_io_selection_follows_entry() {
    let mut sel = DeviceSelection { input_index: 0, output_index: 0 };
    assert_eq!(update_master_io_device_index(&mut sel, "preferences-output-device-4"), DeviceRole::Output);
    assert_eq!(sel, DeviceSelection { input_index: 0, output_index: 4 });
    assert_eq!(update_master_io_device_index(&mut sel, "preferences-input-device-2"), DeviceRole::Input);
    assert_eq!(sel, DeviceSelection { input_index: 2, output_index: 4 });
}

#[test]
fn only_device_entries_with_an_index_are_accepted() {
    assert!(is_device_entry_id("preferences-output-device-4"));
    assert!(is_device_entry_id("preferences-input-device-0"));
    assert!(!is_device_entry_id("preferences-settings"));
    assert!(!is_device_entry_id("project-add-track"));
    assert!(!is_device_entry_id("preferences-input-device-z"));
    assert!(!is_device_entry_id("preferences-output-device-"));
}

#[test]
fn parse_index_like_std() {
    assert_eq!(parse_index("0"), Some(0));
    assert_eq!(parse_index("+17"), Some(17));
    assert_eq!(parse_index(""), None);
    assert_eq!(parse_index("+"), None);
    assert_eq!(parse_index("1a"), None);
    assert_eq!(parse_index("-1"), None);
    assert_eq!(parse_index("18446744073709551615"), "18446744073709551615".parse::<usize>().ok());
    assert_eq!(parse_index("99999999999999999999999"), None);
}

#[test]
fn names_sort_like_strings() {
    assert!(str_before("a", "b"));
    assert!(str_before("ab", "abc"));
    assert!(!str_before("abc", "ab"));
    assert!(!str_before("same", "same"));
    assert!(str_before("Z", "a"));
}
