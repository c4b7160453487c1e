//! Recognising other fan-control software, and planning around it.
use openfan::contention::{
    detect, stop, ContentionError, Politeness, Process, Running, StopOutcome, StopStep, Stopping,
};
use openfan::hal::ChannelControl;
use openfan::known::{known_apps, lookup, Role};
use openfan::plan::{hand_back_blocked_by, plan, Blocker, ChannelSituation, Situation};

// --- Known applications ---------------------------------------------------------------------

#[test]
fn the_reference_machines_competitor_is_recognised_however_it_is_spelled() {
    for spelling in [
        "FanControl.exe",
        "fancontrol",
        "FANCONTROL.EXE",
        "FanControl",
    ] {
        assert_eq!(
            lookup(spelling).map(|a| a.key),
            Some("fancontrol".to_owned()),
            "failed for {spelling}"
        );
    }
}

#[test]
fn unknown_processes_are_not_guessed_at() {
    assert_eq!(lookup("explorer.exe"), None);
    assert_eq!(lookup("notepad"), None);
    assert_eq!(lookup(""), None);
}

#[test]
fn monitors_are_not_classed_as_controllers() {
    assert_eq!(lookup("HWiNFO64").map(|a| a.role), Some(Role::Monitor));
    assert_eq!(lookup("FanControl").map(|a| a.role), Some(Role::Controller));
}

#[test]
fn every_entry_is_well_formed_and_uniquely_keyed() {
    let mut keys = std::collections::BTreeSet::new();
    let mut names = std::collections::BTreeSet::new();

    for app in known_apps() {
        assert!(keys.insert(app.key.clone()), "duplicate key {}", app.key);
        assert!(!app.process_names.is_empty(), "{} matches nothing", app.key);
        assert!(!app.note.is_empty(), "{} has no explanation", app.key);

        for process in &app.process_names {
            assert!(
                names.insert(process.to_ascii_lowercase()),
                "{process} is claimed by more than one entry"
            );
        }
    }
}

#[test]
fn an_extension_is_taken_off_once_however_it_is_spelled() {
    assert_eq!(lookup("FanControl.Exe").map(|a| a.key), Some("fancontrol".to_owned()));
    assert_eq!(lookup("fanCONTROL.eXE").map(|a| a.key), Some("fancontrol".to_owned()));
    // Only once.
    assert_eq!(lookup("FanControl.exe.exe"), None);
    // A name that is nothing but the extension is nobody's.
    assert_eq!(lookup(".exe"), None);
}

// --- Stopping -------------------------------------------------------------------------------

#[test]
fn a_terminated_app_is_stopped_but_got_no_chance_to_clean_up() {
    let killed = StopOutcome::Stopped {
        via: Politeness::Terminate,
    };
    assert!(killed.is_stopped());
    assert!(!killed.had_chance_to_clean_up());

    let closed = StopOutcome::Stopped {
        via: Politeness::Close,
    };
    assert!(closed.is_stopped());
    assert!(closed.had_chance_to_clean_up());
}

#[test]
fn an_app_that_would_not_stop_is_not_reported_as_stopped() {
    let stubborn = StopOutcome::StillRunning {
        tried: Politeness::Quit,
    };
    assert!(!stubborn.is_stopped());
    assert!(!stubborn.had_chance_to_clean_up());
}

#[test]
fn an_app_that_was_already_gone_is_stopped_but_was_asked_nothing() {
    assert!(StopOutcome::AlreadyGone.is_stopped());
    assert!(!StopOutcome::AlreadyGone.had_chance_to_clean_up());
}

#[test]
fn politeness_escalates_in_the_documented_order() {
    assert!(Politeness::Close < Politeness::Quit);
    assert!(Politeness::Quit < Politeness::Terminate);
}

#[test]
fn detection_is_total() {
    let _ = detect(Err(ContentionError::Unsupported));
    let _ = detect(Ok(vec![]));
}

#[test]
fn detection_reports_the_known_processes_in_order() {
    let listing = vec![
        Process { pid: 1, name: "explorer.exe".into() },
        Process { pid: 2, name: "HWiNFO64.EXE".into() },
        Process { pid: 3, name: "FanControl.exe".into() },
    ];
    let found = detect(Ok(listing)).expect("a listing");
    assert_eq!(found.len(), 2);
    assert_eq!((found[0].pid, found[0].app.key.as_str()), (2, "hwinfo"));
    assert_eq!((found[1].pid, found[1].process_name.as_str()), (3, "FanControl.exe"));

    let failed = detect(Err(ContentionError::Enumerate("no".into()))).unwrap_err();
    assert_eq!(failed.message(), "could not enumerate processes: no");
    assert_eq!(
        ContentionError::Unsupported.message(),
        "contention handling is only implemented on Windows"
    );
    assert_eq!(
        ContentionError::Stop { name: "A".into(), pid: 7, detail: "d".into() }.message(),
        "could not stop A (pid 7): d"
    );
}

/// Stands an application down that goes once it has been pushed `stubbornness` times.
fn stand_down(stubbornness: u32, limit: Politeness) -> (StopOutcome, Vec<Politeness>) {
    let mut pushes: Vec<Politeness> = Vec::new();
    let mut so_far = Stopping::Fresh;
    loop {
        let alive = (pushes.len() as u32) < stubbornness;
        match stop(so_far, alive, limit) {
            StopStep::Finished(outcome) => return (outcome, pushes),
            StopStep::Push(rung) => {
                pushes.push(rung);
                so_far = Stopping::Tried(rung);
            }
        }
    }
}

#[test]
fn the_gentlest_rung_that_works_is_reported() {
    assert_eq!(stand_down(0, Politeness::Terminate), (StopOutcome::AlreadyGone, vec![]));
    assert_eq!(
        stand_down(1, Politeness::Terminate).0,
        StopOutcome::Stopped { via: Politeness::Close }
    );
    assert_eq!(
        stand_down(3, Politeness::Terminate),
        (
            StopOutcome::Stopped { via: Politeness::Terminate },
            vec![Politeness::Close, Politeness::Quit, Politeness::Terminate]
        )
    );
    assert_eq!(
        stand_down(9, Politeness::Quit),
        (
            StopOutcome::StillRunning { tried: Politeness::Quit },
            vec![Politeness::Close, Politeness::Quit]
        )
    );
    assert_eq!(Politeness::Close.attempts(), 1);
    assert_eq!(Politeness::Terminate.attempts(), 3);
}

// --- Planning -------------------------------------------------------------------------------

fn running(process: &str, pid: u32) -> Running {
    Running {
        app: lookup(process).expect("known app"),
        pid,
        process_name: process.to_owned(),
    }
}

fn channel(id: &str, control: ChannelControl) -> ChannelSituation {
    ChannelSituation {
        id: id.to_owned(),
        label: id.to_owned(),
        control,
    }
}

#[test]
fn a_live_controller_blocks_handing_channels_back() {
    let blocker = hand_back_blocked_by(&vec![running("FanControl", 1234)])
        .expect("a live controller must block");

    match &blocker {
        Blocker::ControllerStillRunning { names } => {
            assert_eq!(names.len(), 1);
            assert!(names[0].contains("FanControl"), "{names:?}");
            assert!(names[0].contains("1234"), "{names:?}");
        }
    }
    assert!(blocker.message().contains("FanControl"));
}

#[test]
fn a_monitor_does_not_block_anything() {
    assert_eq!(hand_back_blocked_by(&vec![running("HWiNFO64", 22)]), None);
}

#[test]
fn vendor_software_does_not_block_either() {
    assert_eq!(
        hand_back_blocked_by(&vec![running("ArmourySocketServer", 9)]),
        None
    );
}

#[test]
fn nothing_running_blocks_nothing() {
    assert_eq!(hand_back_blocked_by(&vec![]), None);
}

#[test]
fn every_live_controller_is_named_not_just_the_first() {
    let blocker =
        hand_back_blocked_by(&vec![running("FanControl", 1), running("ArgusMonitor", 2)]).unwrap();
    assert_eq!(
        blocker.message(),
        "FanControl (pid 1), Argus Monitor (pid 2) is still running. Handing these channels \
         back now would put them straight into manual again and the two programs would fight \
         over them."
    );
    let Blocker::ControllerStillRunning { names } = blocker;
    assert_eq!(names.len(), 2, "{names:?}");
}

#[test]
fn channels_are_sorted_by_who_is_driving_them() {
    let situation = Situation {
        channels: vec![
            channel("pwm/0", ChannelControl::Firmware),
            channel("pwm/1", ChannelControl::Foreign),
            channel("pwm/2", ChannelControl::Ours),
            channel("pwm/3", ChannelControl::Unknown),
        ],
        apps: vec![],
    };

    let plan = plan(&situation);
    assert_eq!(plan.firmware, ["pwm/0"]);
    assert_eq!(plan.strand, ["pwm/1"]);
    assert_eq!(plan.ours, ["pwm/2"]);
    assert_eq!(plan.unknown, ["pwm/3"]);
}

#[test]
fn only_controllers_are_asked_to_stop() {
    let situation = Situation {
        channels: vec![],
        apps: vec![
            running("FanControl", 1),
            running("HWiNFO64", 2),
            running("ArmourySocketServer", 3),
        ],
    };

    let plan = plan(&situation);
    assert_eq!(plan.stop.len(), 1);
    assert_eq!(plan.stop[0].app.key, "fancontrol");
    assert_eq!(plan.coexist.len(), 2);
}

#[test]
fn a_machine_with_nothing_in_the_way_needs_no_takeover() {
    let situation = Situation {
        channels: vec![channel("pwm/0", ChannelControl::Firmware)],
        apps: vec![running("HWiNFO64", 2)],
    };
    assert!(plan(&situation).is_noop());
}

#[test]
fn a_stranded_channel_alone_is_enough_to_need_work() {
    let situation = Situation {
        channels: vec![channel("pwm/1", ChannelControl::Foreign)],
        apps: vec![],
    };
    assert!(!plan(&situation).is_noop());
}
