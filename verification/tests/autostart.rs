//! Finding what starts with the machine.
use openfan::autostart::{
    app_for_command, choose_target, command_in_task, decode_utf16_or_utf8, disable, disabled,
    executable_in, executable_of, find, read_registry_text, recognise, run_keys_of, scan,
    shortcut_target, AutostartEntry,
    AutostartError, DisableStep, Location, Surveyed,
};

#[test]
fn a_command_is_matched_by_its_executable_not_its_wording() {
    let app = app_for_command(r#""C:\Program Files (x86)\FanControl\FanControl.exe" -m"#);
    assert_eq!(app.map(|a| a.key), Some("fancontrol".to_owned()));

    assert_eq!(
        app_for_command(r"c:\tools\FANCONTROL.EXE").map(|a| a.key),
        Some("fancontrol".to_owned())
    );
}

#[test]
fn an_unrelated_startup_entry_is_left_alone() {
    assert!(app_for_command(r"C:\Windows\explorer.exe").is_none());
    assert!(app_for_command("").is_none());
    assert!(app_for_command(r"C:\Program Files\Steam\steam.exe -silent").is_none());
}

#[test]
fn a_program_merely_named_after_one_is_not_matched() {
    assert!(app_for_command(r"C:\tools\FanControlHelperThing\run.exe").is_none());
}

#[test]
fn an_executable_is_read_out_of_a_quoted_command_line() {
    assert_eq!(
        executable_of(r#""C:\Program Files\A B\app.exe" --flag"#).as_deref(),
        Some(r"C:\Program Files\A B\app.exe")
    );
    assert_eq!(executable_of(r"C:\a\b.exe -x").as_deref(), Some(r"C:\a\b.exe"));
    assert_eq!(executable_of("   "), None);
}

#[test]
fn a_quote_that_is_never_closed_takes_the_rest() {
    assert_eq!(executable_of("  \"C:\\a b").as_deref(), Some("C:\\a b"));
    assert_eq!(executable_of("\"").as_deref(), Some(""));
}

#[test]
fn a_run_value_is_the_one_location_we_cannot_reverse_on_our_own() {
    let run = Location::RunValue {
        hive: "your account".into(),
        subkey: "Software".into(),
        value: "Thing".into(),
    };
    assert!(!run.is_reversible());

    assert!(
        Location::ScheduledTask {
            name: "Thing".into()
        }
        .is_reversible()
    );
    assert!(
        Location::StartupShortcut {
            path: "a.lnk".into(),
            file_name: "a.lnk".into(),
        }
        .is_reversible()
    );
}

#[test]
fn every_location_can_describe_itself_to_someone_who_did_not_write_it() {
    for location in [
        Location::RunValue {
            hive: "your account".into(),
            subkey: r"Software\Microsoft\Windows\CurrentVersion\Run".into(),
            value: "FanControl".into(),
        },
        Location::ScheduledTask {
            name: "FanControl".into(),
        },
        Location::StartupShortcut {
            path: r"C:\Users\a\Startup\FanControl.lnk".into(),
            file_name: "FanControl.lnk".into(),
        },
    ] {
        let text = location.describe();
        assert!(!text.is_empty());
        assert!(!text.contains("HKEY"), "{text}");
    }
    assert_eq!(
        Location::ScheduledTask { name: "T".into() }.describe(),
        "a scheduled task named \"T\""
    );
}

#[test]
fn a_task_definition_yields_the_command_it_runs() {
    let xml = r#"<?xml version="1.0"?><Task><Actions><Exec>
        <Command>"C:\Program Files (x86)\FanControl\FanControl.exe"</Command>
        <Arguments>-m</Arguments></Exec></Actions></Task>"#;
    let command = command_in_task(xml).expect("finds the command");
    assert!(command.contains("FanControl.exe"));
    assert_eq!(
        app_for_command(&command).map(|a| a.key),
        Some("fancontrol".to_owned())
    );
}

#[test]
fn a_task_with_no_action_yields_nothing_rather_than_failing() {
    assert_eq!(command_in_task("<Task/>"), None);
    assert_eq!(command_in_task(""), None);
    assert_eq!(command_in_task("<Command></Command>"), None);
}

#[test]
fn escapes_in_a_task_definition_are_undone() {
    assert_eq!(
        command_in_task("<Command> &quot;a&amp;b.exe&quot; </Command>").as_deref(),
        Some("\"a&b.exe\"")
    );
    // Quotes first, then ampersands: what an ampersand uncovers stays.
    assert_eq!(
        command_in_task("<Command>&amp;quot;</Command>").as_deref(),
        Some("&quot;")
    );
}

#[test]
fn a_path_is_recovered_from_the_middle_of_a_binary_shortcut() {
    let blob = "L\0\0\0\u{1}\u{14}\u{2}rubbish\0\0\
                C:\\Program Files (x86)\\FanControl\\FanControl.exe\0more rubbish";

    let found = executable_in(blob).expect("finds the target");
    assert_eq!(found, r"C:\Program Files (x86)\FanControl\FanControl.exe");
    assert_eq!(
        app_for_command(&found).map(|a| a.key),
        Some("fancontrol".to_owned())
    );
}

#[test]
fn text_with_no_path_in_it_yields_nothing() {
    assert_eq!(executable_in("just some words"), None);
    assert_eq!(executable_in(""), None);
    assert_eq!(executable_in("FanControl.exe"), None);
}

#[test]
fn a_shortcut_is_read_in_either_encoding() {
    let narrow = b"..C:\\a\\FanControl.exe..".to_vec();
    assert_eq!(
        shortcut_target(&narrow, Some("x".into())).as_deref(),
        Some("C:\\a\\FanControl.exe")
    );

    let mut wide: Vec<u8> = Vec::new();
    for unit in "C:\\a\\FanControl.exe".encode_utf16() {
        wide.push((unit % 256) as u8);
        wide.push((unit / 256) as u8);
    }
    assert_eq!(
        shortcut_target(&wide, Some("x".into())).as_deref(),
        Some("C:\\a\\FanControl.exe")
    );

    // Nothing path-shaped: the shortcut's own name, where it has one.
    assert_eq!(shortcut_target(&vec![1, 2, 3], Some("x".into())).as_deref(), Some("x"));
    assert_eq!(choose_target("", "", None), None);
    // The narrow text is looked at first.
    assert_eq!(
        choose_target("A:\\1.exe", "B:\\2.exe", None).as_deref(),
        Some("A:\\1.exe")
    );
}

#[test]
fn a_task_definition_is_read_with_and_without_a_mark() {
    let mut marked: Vec<u8> = vec![0xFF, 0xFE];
    for unit in "<T\u{e9}>".encode_utf16() {
        marked.push((unit % 256) as u8);
        marked.push((unit / 256) as u8);
    }
    assert_eq!(decode_utf16_or_utf8(&marked), "<T\u{e9}>");
    assert_eq!(decode_utf16_or_utf8(&"<T\u{e9}>".as_bytes().to_vec()), "<T\u{e9}>");
    // A pair of surrogates is one character, and one that is not part of a pair is replaced.
    let units: [u16; 6] = [0xD83D, 0xDE00, 0x41, 0xDE00, 0xD83D, 0xD83D];
    let mut marked: Vec<u8> = vec![0xFF, 0xFE];
    marked.extend(units.iter().flat_map(|unit| unit.to_le_bytes()));
    assert_eq!(decode_utf16_or_utf8(&marked), "\u{1F600}A\u{fffd}\u{fffd}\u{fffd}");
    // What encodes nothing is replaced rather than refused.
    assert_eq!(decode_utf16_or_utf8(&vec![0x41, 0xFF]), "A\u{fffd}");
}

fn task(command: &str, there: bool) -> Surveyed {
    Surveyed {
        location: Location::ScheduledTask { name: "t".into() },
        command: command.into(),
        executable_exists: there,
    }
}

#[test]
fn surveying_is_total() {
    let _ = find(&vec![]);
}

#[test]
fn a_scan_says_how_much_it_saw() {
    let all = vec![
        task(r"C:\a\FanControl.exe", true),
        task(r"C:\a\steam.exe", true),
        // Left behind by an uninstall.
        task(r"C:\b\FanControl.exe", false),
        task(r"C:\c\speedfan.exe", true),
    ];
    let (rivals, examined) = scan(&all);
    assert_eq!(examined, 4);
    assert_eq!(rivals.len(), 2);
    assert_eq!(rivals[0].app.key, "fancontrol");
    assert_eq!(rivals[1].command, r"C:\c\speedfan.exe");
    assert_eq!(find(&all), rivals);
    assert_eq!(scan(&vec![]), (vec![], 0));
    assert!(recognise(r"C:\c\speedfan.exe").is_some());
}

#[test]
fn switching_off_prefers_what_can_be_undone() {
    let app = recognise(r"C:\a\FanControl.exe").unwrap();
    let entry = |location: Location| AutostartEntry {
        app: app.clone(),
        location,
        command: "C:\\a\\FanControl.exe -m".into(),
    };

    let run = entry(Location::RunValue {
        hive: "this machine".into(),
        subkey: "Software\\Run".into(),
        value: "FanControl".into(),
    });
    assert_eq!(
        disable(&run),
        DisableStep::DeleteValue {
            of_machine: true,
            subkey: "Software\\Run".into(),
            value: "FanControl".into(),
        }
    );
    let done = disabled(&run, Ok(())).unwrap();
    assert_eq!(done.what, "FanControl: a startup entry named \"FanControl\" in this machine");
    assert_eq!(
        done.restore_hint.as_deref(),
        Some(
            "It ran: C:\\a\\FanControl.exe -m. Recreate it as a value named \"FanControl\" under \
             Software\\Run to put it back."
        )
    );

    let shortcut = entry(Location::StartupShortcut {
        path: "C:\\s\\f.lnk".into(),
        file_name: "f.lnk".into(),
    });
    assert_eq!(
        disable(&shortcut),
        DisableStep::RenameShortcut {
            path: "C:\\s\\f.lnk".into(),
            extension: "lnk.openfan-disabled".into(),
        }
    );
    assert_eq!(disabled(&shortcut, Ok(())).unwrap().restore_hint, None);

    let scheduled = entry(Location::ScheduledTask { name: "t".into() });
    assert_eq!(disable(&scheduled), DisableStep::DisableTask { name: "t".into() });
    let failed = disabled(&scheduled, Err("denied".into())).unwrap_err();
    assert_eq!(
        failed.message(),
        "could not switch off FanControl: a scheduled task named \"t\": denied"
    );
    assert_eq!(
        AutostartError::Unsupported.message(),
        "autostart handling is only implemented on Windows"
    );
}

#[test]
fn a_registry_string_ends_at_its_first_zero() {
    let mut data: Vec<u8> = Vec::new();
    for unit in "C:\\Fan.exe\u{0}rest".encode_utf16() {
        data.push((unit % 256) as u8);
        data.push((unit / 256) as u8);
    }
    assert_eq!(read_registry_text(&data), "C:\\Fan.exe");
    // Not always ended by a zero, and a stray last byte is no character.
    assert_eq!(read_registry_text(&vec![0x61, 0, 0x62, 0, 0x63]), "ab");
    assert_eq!(read_registry_text(&Vec::new()), "");
}

#[test]
fn only_accounts_of_people_have_a_startup_list() {
    let sids = vec![
        ".DEFAULT".to_owned(),
        "S-1-5-21-1001".to_owned(),
        "S-1-5-21-1001_Classes".to_owned(),
        "_Classes".to_owned(),
        "S-1-5-18".to_owned(),
    ];
    assert_eq!(
        run_keys_of(&sids),
        vec![
            "S-1-5-21-1001\\Software\\Microsoft\\Windows\\CurrentVersion\\Run".to_owned(),
            "S-1-5-18\\Software\\Microsoft\\Windows\\CurrentVersion\\Run".to_owned(),
        ]
    );
}

#[test]
fn an_unquoted_path_may_have_white_space_in_it() {
    assert_eq!(
        executable_of(r"C:\Program Files\FanControl\FanControl.EXE -m").as_deref(),
        Some(r"C:\Program Files\FanControl\FanControl.EXE")
    );
    assert_eq!(executable_of(r"C:\a.exe.d\b.bat x").as_deref(), Some(r"C:\a.exe.d\b.bat"));
}

#[test]
fn the_name_has_to_be_the_whole_name_of_the_executable() {
    assert!(recognise(r"C:\tools\MyFanControl.exe").is_none());
    assert!(recognise(r"C:\tools\My FanControl.exe").is_none());
    assert!(recognise(r"C:\FanControl.exe\run.exe").is_none());
    let found = recognise(r"C:\Program Files\NZXT CAM\nzxt cam.exe --startup");
    assert_eq!(found.map(|a| a.key), Some("nzxtcam".to_owned()));
    assert_eq!(recognise("fancontrol.exe").map(|a| a.key), Some("fancontrol".to_owned()));
}
