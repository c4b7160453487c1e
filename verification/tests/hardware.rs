//! The chip, its ports, and what to ask of them.
use openfan::hal::HalError;
use openfan::lpc::{
    bus_is_ours, enter_config_mode, leave_config_mode, plausible_chip_id, select_logical_device,
    wait_millis, IsaBusError, LpcError, Request, Slot, Unlock, Wait, BASE_ADDRESS_REGISTER,
    DEVICE_SELECT_REGISTER,
};
use openfan::nct6775::{
    decode_pwm, decode_rpm, decode_temp, decode_temp_byte, decode_temp_word, decode_tsi_temp,
    encode_pwm, identify, mode_from_register, mode_into_register, temp_input_for_source,
    temp_source_label, word_of, FanMode, Model, Nct6775, TempEncoding, TempInput, BANK_SELECT,
    LD_HARDWARE_MONITOR, REG_FAN, REG_PWM, TEMP_INPUTS,
};
use openfan::pawnio::{check, is_available, library_version, load_module, PawnIoError};
use openfan::scalar::Scalar;
use openfan::superio::{
    discover, hal_error, Acquired, ControlRegisters, DiscoverStep, ProbeStep, Probing, SuperIoBackend,
};

fn num(x: Scalar) -> f64 {
    f64::from_bits(x.to_bits())
}

fn opt(x: Option<Scalar>) -> Option<f64> {
    x.map(num)
}

fn scalar(x: f64) -> Scalar {
    Scalar::from_bits(x.to_bits())
}

// --- PawnIO ---------------------------------------------------------------------------------

#[test]
fn availability_check_is_total() {
    assert!(is_available(&Ok(())));
    assert!(!is_available(&Err(PawnIoError::NotInstalled)));
}

#[test]
fn absent_pawnio_is_reported_as_not_installed_not_a_panic() {
    match library_version(Err(PawnIoError::NotInstalled), 0, 0) {
        Ok((major, _, _)) => assert!(major < 100, "implausible version"),
        Err(e) => assert!(
            matches!(e, PawnIoError::NotInstalled | PawnIoError::MissingExport(_)),
            "unexpected error kind: {e:?}"
        ),
    }
    assert_eq!(library_version(Ok(()), 0, 0x0002_0103), Ok((2, 1, 3)));
    assert!(library_version(Ok(()), -1, 0).is_err());
}

#[test]
fn failing_hresults_are_recognised() {
    assert!(check("t", 0).is_ok());
    assert!(check("t", 1).is_ok(), "S_FALSE is a success code");
    let err = check("t", 0x8007_0005u32 as i32).unwrap_err();
    assert!(err.message().contains("80070005"), "{err:?}");
    assert_eq!(err.message(), "PawnIO call t failed (HRESULT 0x80070005)");
}

#[test]
fn every_pawnio_failure_explains_itself() {
    assert_eq!(
        load_module("LpcIO", 0, -5).unwrap_err().message(),
        "PawnIO refused to load module LpcIO. The signed edition only loads modules signed by \
         the PawnIO project; either use an official module or install the Unrestricted edition."
    );
    assert!(load_module("LpcIO", 0, 0).is_ok());
    assert!(matches!(load_module("LpcIO", -1, 0), Err(PawnIoError::Call { .. })));
    assert_eq!(
        PawnIoError::MissingExport("pawnio_open".into()).message(),
        "PawnIOLib is missing the pawnio_open export; the installed version may be too old"
    );
    assert_eq!(
        PawnIoError::InvalidName("a\"b".into()).message(),
        "function name \"a\\\"b\" is not valid for FFI"
    );
    assert!(PawnIoError::NotInstalled.message().contains("https://pawnio.eu"));
    assert!(PawnIoError::AccessDenied.message().contains("administrator"));
}

// --- The bus --------------------------------------------------------------------------------

#[test]
fn slots_map_to_the_conventional_port_pairs() {
    assert_eq!(Slot::Primary.index_port(), 0x2E);
    assert_eq!(Slot::Secondary.index_port(), 0x4E);
}

#[test]
fn a_floating_bus_is_not_mistaken_for_a_chip() {
    assert_eq!(plausible_chip_id(0x0000), None);
    assert_eq!(plausible_chip_id(0xFFFF), None);
}

#[test]
fn real_chip_ids_survive() {
    assert_eq!(plausible_chip_id(0xD428), Some(0xD428));
    assert_eq!(plausible_chip_id(0xC803), Some(0xC803));
}

#[test]
fn nuvoton_unlock_is_the_documented_double_write() {
    assert_eq!(Unlock::Nuvoton.enter_sequence(Slot::Primary), &[0x87, 0x87]);
    assert_eq!(Unlock::Nuvoton.enter_sequence(Slot::Secondary), &[0x87, 0x87]);
    assert_eq!(Unlock::Nuvoton.exit_sequence(), &[0xAA]);
}

#[test]
fn configuration_mode_is_entered_and_left_through_the_index_port() {
    assert_eq!(
        enter_config_mode(Slot::Secondary, Unlock::Nuvoton),
        vec![
            Request::PortOut { port: 0x4E, value: 0x87 },
            Request::PortOut { port: 0x4E, value: 0x87 },
        ]
    );
    assert_eq!(
        leave_config_mode(Slot::Primary, Unlock::Nuvoton),
        vec![Request::PortOut { port: 0x2E, value: 0xAA }]
    );
    assert_eq!(enter_config_mode(Slot::Primary, Unlock::Ite).len(), 4);
    assert_eq!(Unlock::Ite.enter_sequence(Slot::Primary), &[0x87, 0x01, 0x55, 0x55]);
    assert_eq!(Unlock::Ite.enter_sequence(Slot::Secondary), &[0x87, 0x01, 0x55, 0xAA]);
    assert_eq!(
        leave_config_mode(Slot::Primary, Unlock::Ite),
        vec![Request::SuperIoOut { register: 0x02, value: 0x02 }]
    );
}

#[test]
fn requests_name_their_entry_points() {
    assert_eq!(
        Request::SelectSlot(Slot::Secondary).call(),
        ("ioctl_select_slot".to_owned(), vec![1])
    );
    assert_eq!(Request::FindBars.call(), ("ioctl_find_bars".to_owned(), vec![]));
    assert_eq!(
        Request::PortOut { port: 0x295, value: 7 }.call(),
        ("ioctl_pio_outb".to_owned(), vec![0x295, 7])
    );
    assert_eq!(
        Request::PortIn { port: 0x296 }.call(),
        ("ioctl_pio_inb".to_owned(), vec![0x296])
    );
    assert_eq!(
        Request::SuperIoByte { register: 0x30 }.call(),
        ("ioctl_superio_inb".to_owned(), vec![0x30])
    );
    assert_eq!(
        Request::SuperIoWord { register: 0x20 }.call(),
        ("ioctl_superio_inw".to_owned(), vec![0x20])
    );
    assert_eq!(
        select_logical_device(0x0B).call(),
        ("ioctl_superio_outb".to_owned(), vec![0x07, 0x0B])
    );
    assert!(Request::PortIn { port: 1 }.is_read());
    assert!(!Request::FindBars.is_read());
}

#[test]
fn an_abandoned_bus_is_taken() {
    assert!(bus_is_ours(Wait::Owned));
    assert!(bus_is_ours(Wait::Abandoned));
    assert!(!bus_is_ours(Wait::Other));
    assert_eq!(wait_millis(250), 250);
    assert_eq!(wait_millis(u128::MAX), u32::MAX);
    assert!(
        LpcError::Bus(IsaBusError::Timeout("2s".into()))
            .message()
            .starts_with("timed out after 2s waiting for the ISA bus mutex.")
    );
}

// --- The chip -------------------------------------------------------------------------------

#[test]
fn the_reference_machines_chip_is_identified() {
    assert_eq!(identify(0xD42B).unwrap().key(), "nct6798d");
}

#[test]
fn the_fixture_is_the_chip_we_think_it_is() {
    assert_eq!(identify(0xD42B).unwrap().key(), "nct6798d");
}

#[test]
fn the_low_nibble_separates_parts_sharing_a_prefix() {
    assert_eq!(identify(0xD423).unwrap().key(), "nct6796d");
    assert_eq!(identify(0xD428).unwrap().key(), "nct6798d");
}

#[test]
fn an_unknown_chip_is_not_guessed_at() {
    assert_eq!(identify(0x0000), None);
    assert_eq!(identify(0xFFFF), None);
    assert_eq!(identify(0x1234), None);
}

#[test]
fn every_supported_chip_is_named() {
    for (id, key, name) in [
        (0xC803, "nct6791d", "Nuvoton NCT6791D"),
        (0xC911, "nct6792d", "Nuvoton NCT6792D"),
        (0xD121, "nct6793d", "Nuvoton NCT6793D"),
        (0xD352, "nct6795d", "Nuvoton NCT6795D"),
        (0xD451, "nct6797d", "Nuvoton NCT6797D"),
        (0xD802, "nct6799d", "Nuvoton NCT6799D"),
    ] {
        let model = identify(id).expect("supported");
        assert_eq!((model.key(), model.name()), (key, name));
    }
}

#[test]
fn a_stopped_fan_reads_as_zero_rather_than_missing() {
    assert_eq!(opt(decode_rpm(0)), Some(0.0));
}

#[test]
fn an_impossible_rpm_is_omitted_not_clamped() {
    assert_eq!(opt(decode_rpm(0xFF1F)), None);
    assert_eq!(opt(decode_rpm(1477)), Some(1477.0));
    assert_eq!(opt(decode_rpm(30_000)), Some(30_000.0));
    assert_eq!(opt(decode_rpm(30_001)), None);
}

#[test]
fn pwm_spans_the_full_range() {
    assert_eq!(num(decode_pwm(0)), 0.0);
    assert_eq!(num(decode_pwm(255)), 100.0);
    assert!((num(decode_pwm(116)) - 45.5).abs() < 0.1, "{}", num(decode_pwm(116)));
}

#[test]
fn every_duty_decodes_as_floating_point_has_it_and_encodes_back() {
    for raw in 0..=255u8 {
        let duty = decode_pwm(raw);
        assert_eq!(num(duty), f64::from(raw) / 255.0 * 100.0);
        assert_eq!(encode_pwm(duty), raw);
    }
    assert_eq!(encode_pwm(scalar(-5.0)), 0);
    assert_eq!(encode_pwm(scalar(1000.0)), 255);
    assert_eq!(encode_pwm(scalar(50.0)), 128);
}

#[test]
fn word_temperatures_carry_a_half_degree() {
    assert_eq!(opt(decode_temp_word(0x2B00)), Some(43.0));
    assert_eq!(opt(decode_temp_word(0x2E80)), Some(46.5));
}

#[test]
fn sub_zero_temperatures_do_not_wrap_into_plausibility() {
    assert_eq!(opt(decode_temp_word(0xFF00)), Some(-1.0));
    assert_eq!(opt(decode_temp_byte(0xFF)), Some(-1.0));
}

#[test]
fn disconnected_temperature_inputs_are_omitted() {
    assert_eq!(opt(decode_temp_word(0x8000)), None);
    assert_eq!(opt(decode_temp_byte(0x80)), None);
}

#[test]
fn the_window_of_believable_temperatures_has_its_ends() {
    assert_eq!(opt(decode_temp_byte(0xD8)), Some(-40.0));
    assert_eq!(opt(decode_temp_byte(0xD7)), None);
    assert_eq!(opt(decode_temp_word(0x9600)), None);
    assert_eq!(opt(decode_temp(TempEncoding::SignedByte, 0x2B)), Some(43.0));
    assert_eq!(opt(decode_temp(TempEncoding::SignedWord, 0x2E80)), Some(46.5));
}

#[test]
fn tsi_readings_are_eighths_of_a_degree_and_zero_means_absent() {
    assert_eq!(opt(decode_tsi_temp(0x4960)), Some(73.375));
    assert_eq!(opt(decode_tsi_temp(0x2C00)), Some(44.0));
    assert_eq!(opt(decode_tsi_temp(0x38C0)), Some(56.75));
    assert_eq!(opt(decode_tsi_temp(0)), None);
    assert_eq!(opt(decode_temp(TempEncoding::Tsi, 0x2C00)), Some(44.0));
}

#[test]
fn the_seventh_tachometer_is_not_where_a_stride_would_put_it() {
    assert_eq!(REG_FAN[6], 0x4CE);
    assert!(!REG_FAN.contains(&0x4CC));
}

#[test]
fn temperature_ids_are_keyed_by_function_not_position() {
    for input in &TEMP_INPUTS {
        assert!(
            input.key().chars().all(|c| c.is_ascii_lowercase()),
            "{} is not a stable key",
            input.key()
        );
    }
}

#[test]
fn every_exposed_sensor_id_is_unique_and_stable() {
    let mut ids: Vec<String> = Vec::new();
    ids.extend((0..REG_FAN.len()).map(|i| format!("nct6798d/fan/{i}")));
    ids.extend((0..REG_PWM.len()).map(|i| format!("nct6798d/pwm/{i}")));
    ids.extend(
        TEMP_INPUTS
            .iter()
            .map(|t| format!("nct6798d/temp/{}", t.key())),
    );

    let unique: std::collections::BTreeSet<_> = ids.iter().collect();
    assert_eq!(unique.len(), ids.len(), "duplicate sensor id in {ids:?}");
}

#[test]
fn every_exposed_input_has_a_unique_stable_key_and_register() {
    let mut keys = std::collections::BTreeSet::new();
    let mut regs = std::collections::BTreeSet::new();
    for t in &TEMP_INPUTS {
        assert!(keys.insert(t.key()), "duplicate key {}", t.key());
        assert!(
            regs.insert(t.register()),
            "duplicate register {:#05x}",
            t.register()
        );
        assert!(
            t.key()
                .chars()
                .all(|c| c.is_ascii_lowercase() || c.is_ascii_digit()),
            "{} is not a stable key",
            t.key()
        );
    }
}

#[test]
fn source_labels_the_driver_leaves_blank_are_not_invented() {
    assert_eq!(temp_source_label(0), None);
    assert_eq!(temp_source_label(12), None);
    assert_eq!(temp_source_label(1), Some("SYSTIN"));
    assert_eq!(temp_source_label(2), Some("CPUTIN"));
    assert_eq!(temp_source_label(0b1110_0010), Some("CPUTIN"));
}

#[test]
fn a_source_that_is_not_exposed_resolves_to_nothing() {
    assert!(temp_input_for_source(20).is_none());
    assert_eq!(temp_input_for_source(0b1110_0010), Some(TempInput::Cputin));
    assert_eq!(temp_source_label(28), Some("PECI Agent 0 Calibration"));
    assert_eq!(temp_source_label(3), Some("AUXTIN0"));
}

// --- What the reference board read when it was looked at -------------------------------------

#[test]
fn tachometers_decode_to_the_speeds_the_fans_were_actually_running() {
    // fan/1 is the machine's only case fan; fan/4 is the AIO pump.
    assert_eq!(opt(decode_rpm(word_of(0x05, 0xC5))), Some(1477.0), "CPU fan");
    assert_eq!(opt(decode_rpm(word_of(0x08, 0x6C))), Some(2156.0), "AIO pump");

    // fan/0's header is empty. That is a genuine 0 RPM reading, not a missing one.
    assert_eq!(opt(decode_rpm(word_of(0, 0))), Some(0.0), "empty chassis header");
}

#[test]
fn temperatures_decode_to_the_readings_shown_at_capture_time() {
    assert_eq!(opt(decode_temp_word(word_of(0x2B, 0x00))), Some(43.0), "CPUTIN");
    assert_eq!(opt(decode_temp_byte(0x2E)), Some(46.0), "SYSTIN");
}

#[test]
fn systin_and_cputin_still_read_what_the_other_tool_showed_at_capture() {
    let read = |input: TempInput, raw: u16| opt(decode_temp(input.encoding(), raw));
    assert_eq!(read(TempInput::Systin, 0x002E), Some(46.0));
    assert_eq!(read(TempInput::Cputin, 0x2B00), Some(43.0));
}

#[test]
fn the_untouched_header_reads_as_firmware_controlled() {
    // Smart Fan IV is the BIOS curve: the state of a channel nobody has taken.
    let mode = mode_from_register(0x40);
    assert_eq!(mode, FanMode::SmartFanIv);
    assert!(mode.is_firmware_controlled());
}

#[test]
fn the_channels_another_controller_held_read_as_manual() {
    let mode = mode_from_register(0x00);
    assert_eq!(mode, FanMode::Manual);
    assert!(!mode.is_firmware_controlled());
}

#[test]
fn switching_the_firmware_channel_to_manual_changes_only_the_mode() {
    // The precise edit that taking a channel makes: 0x40 -> 0x00. The low nibble is the
    // firmware's tolerance setting and must survive.
    let original: u8 = 0x40;
    let manual = mode_into_register(original, FanMode::Manual);
    assert_eq!(manual, 0x00);
    assert_eq!(mode_from_register(manual), FanMode::Manual);
    assert_eq!(manual & 0x0F, original & 0x0F, "tolerance nibble was not preserved");
    // And the restore is exact.
    assert_eq!(mode_into_register(manual, mode_from_register(original)), original);
}

#[test]
fn modes_round_trip_whatever_the_byte() {
    for raw in 0..=255u8 {
        assert_eq!(mode_into_register(raw, mode_from_register(raw)), raw);
        let manual = mode_into_register(raw, FanMode::Manual);
        assert_eq!(mode_from_register(manual), FanMode::Manual);
        assert_eq!(manual & 0x0F, raw & 0x0F);
        assert_eq!(mode_into_register(manual, mode_from_register(raw)), raw);
    }
    assert_eq!(mode_from_register(0x40), FanMode::SmartFanIv);
    assert!(mode_from_register(0x40).is_firmware_controlled());
    assert!(!mode_from_register(0x0F).is_firmware_controlled());
}

fn chip() -> Nct6775 {
    Nct6775::probe(0xD42B, 0x0295).expect("found")
}

#[test]
fn a_monitor_is_found_where_its_base_register_says() {
    assert_eq!(chip().base(), 0x0290);
    assert_eq!(chip().model(), Model::Nct6798d);
    assert_eq!((chip().addr_port(), chip().data_port()), (0x0295, 0x0296));
    // Not mapped: disabled in firmware.
    assert!(Nct6775::probe(0xD42B, 0x0007).is_none());
    assert!(Nct6775::probe(0x1234, 0x0290).is_none());
    assert_eq!(
        Nct6775::locate(),
        vec![
            Request::SuperIoOut { register: DEVICE_SELECT_REGISTER, value: LD_HARDWARE_MONITOR },
            Request::SuperIoWord { register: BASE_ADDRESS_REGISTER },
        ]
    );
    assert_eq!(chip().fan_id(1), "nct6798d/fan/1");
    assert_eq!(chip().pwm_id(4), "nct6798d/pwm/4");
    assert_eq!(chip().temp_id(TempInput::Cputin), "nct6798d/temp/cputin");
}

/// A monitor that answers as the real one does.
struct Pretend {
    index: u8,
    bank: u8,
    registers: std::collections::BTreeMap<u16, u8>,
}

impl Pretend {
    fn run(&mut self, requests: &[Request]) -> Vec<u8> {
        let mut answers = Vec::new();
        for request in requests {
            let at = u16::from(self.bank) * 256 + u16::from(self.index);
            match *request {
                Request::PortOut { port: 0x295, value } => self.index = value,
                Request::PortOut { port: 0x296, value } if self.index == BANK_SELECT => {
                    self.bank = value;
                }
                Request::PortOut { port: 0x296, value } => {
                    self.registers.insert(at, value);
                }
                Request::PortIn { port: 0x296 } => answers.push(self.registers[&at]),
                other => panic!("unexpected {other:?}"),
            }
        }
        answers
    }
}

#[test]
fn requests_reach_the_register_they_are_for() {
    let mut m = Pretend {
        index: 0,
        bank: 3,
        registers: [(0x027, 46), (0x150, 0x2E), (0x151, 0x80)].into_iter().collect(),
    };
    assert_eq!(m.run(&chip().read_byte(0x027)), vec![46]);
    let bytes = m.run(&chip().read_word(0x150));
    assert_eq!(opt(decode_temp_word(word_of(bytes[0], bytes[1]))), Some(46.5));
    m.run(&chip().write_byte(0x109, 77));
    assert_eq!(m.registers[&0x109], 77);
    assert_eq!(chip().set_bank(2).len(), 2);
}

fn control() -> ControlRegisters {
    ControlRegisters {
        mode: [0x102, 0x202, 0x302, 0x802, 0x902, 0xA02, 0xB02],
        duty: [0x109, 0x209, 0x309, 0x809, 0x909, 0xA09, 0xB09],
    }
}

#[test]
fn a_channel_that_is_taken_is_given_back_exactly_as_it_was_found() {
    let mut backend = SuperIoBackend::new(chip(), control());
    backend.enable_control();
    let id = "nct6798d/pwm/1".to_owned();
    let mut m = Pretend {
        index: 0,
        bank: 0,
        registers: [(0x202, 0x45), (0x209, 120)].into_iter().collect(),
    };

    let index = backend.acquire(&id).unwrap().expect("not held yet");
    assert_eq!(index, 1);
    let (mode_read, duty_read) = backend.state_reads(index);
    let found = Acquired {
        mode_register: m.run(&mode_read)[0],
        duty: m.run(&duty_read)[0],
    };
    m.run(&backend.take(index, found));
    backend.taken(index, found);
    // Manual, tolerance kept, duty unchanged.
    assert_eq!((m.registers[&0x202], m.registers[&0x209]), (0x05, 120));

    // Taking it again keeps the recording.
    assert_eq!(backend.acquire(&id), Ok(None));

    for (percent, written) in [(20.0, 51), (60.0, 153), (100.0, 255)] {
        m.run(&backend.set_duty(&id, scalar(percent)).unwrap());
        assert_eq!(m.registers[&0x209], written);
    }

    let (index, requests) = backend.release(&id).unwrap().expect("held");
    m.run(&requests);
    backend.released(index);
    assert_eq!((m.registers[&0x202], m.registers[&0x209]), (0x45, 120));
    assert_eq!(backend.release(&id), Ok(None));
    assert!(matches!(
        backend.set_duty(&id, scalar(1.0)),
        Err(HalError::NotAcquired(_))
    ));
}

#[test]
fn control_is_opt_in() {
    let mut backend = SuperIoBackend::new(chip(), control());
    assert!(!backend.control_enabled());
    let id = "nct6798d/pwm/0".to_owned();
    assert!(matches!(backend.acquire(&id), Err(HalError::Unavailable(_))));
    assert!(matches!(
        backend.set_duty(&id, scalar(50.0)),
        Err(HalError::Unavailable(_))
    ));
    backend.enable_control();
    assert!(backend.control_enabled());
    assert_eq!(backend.acquire(&id), Ok(Some(0)));
    assert!(matches!(
        backend.acquire(&"nct6798d/pwm/7".to_owned()),
        Err(HalError::UnknownChannel(_))
    ));
    assert!(!backend.can_restore_firmware_control());
    assert_eq!(backend.name(), "Nuvoton NCT6798D");
}

#[test]
fn implausible_readings_are_left_out() {
    let backend = SuperIoBackend::new(chip(), control());
    assert_eq!(backend.sensors().len(), 9);
    assert_eq!(backend.sensors()[0].id, "nct6798d/temp/systin");
    assert_eq!(backend.sensors()[2].label, "Fan 0");
    assert_eq!(backend.channels().len(), 7);
    assert_eq!(backend.channels()[4].tachometer.as_deref(), Some("nct6798d/fan/4"));
    assert_eq!(backend.sensor_reads()[8].register, 0x4CE);
    assert!(!backend.sensor_reads()[0].word_sized);

    let raw = vec![
        Some(46),
        Some(0x2B00),
        Some(0),
        Some(1477),
        None,
        Some(0xFF1F),
        Some(2156),
        None,
        None,
    ];
    let readings = backend.readings(&raw);
    let get = |id: &str| opt(readings.get(&id.to_owned()).copied());
    assert_eq!(readings.len(), 5);
    assert_eq!(get("nct6798d/temp/systin"), Some(46.0));
    assert_eq!(get("nct6798d/temp/cputin"), Some(43.0));
    assert_eq!(get("nct6798d/fan/0"), Some(0.0));
    assert_eq!(get("nct6798d/fan/1"), Some(1477.0));
    assert_eq!(get("nct6798d/fan/2"), None);
    assert_eq!(get("nct6798d/fan/3"), None);
    assert_eq!(get("nct6798d/fan/4"), Some(2156.0));

    let (mode, duty) = SuperIoBackend::channel_state(0x40, 255);
    assert_eq!((mode, num(duty)), (FanMode::SmartFanIv, 100.0));
}

#[test]
fn bus_failures_keep_their_actionable_distinctions() {
    assert!(matches!(
        hal_error(LpcError::PawnIo(PawnIoError::AccessDenied)),
        HalError::PermissionDenied(_)
    ));
    assert!(matches!(
        hal_error(LpcError::PawnIo(PawnIoError::NotInstalled)),
        HalError::DriverMissing(_)
    ));
    assert!(matches!(
        hal_error(LpcError::PawnIo(PawnIoError::ModuleNotFound {
            module: "LpcIO".into(),
            searched: String::new(),
        })),
        HalError::DriverMissing(_)
    ));
    assert!(matches!(
        hal_error(LpcError::Bus(IsaBusError::Unavailable("x".into()))),
        HalError::Io(_)
    ));
}

#[test]
fn a_missing_driver_is_not_an_error() {
    for failure in [
        PawnIoError::NotInstalled,
        PawnIoError::ModuleNotFound { module: "LpcIO".into(), searched: String::new() },
    ] {
        match discover(Slot::Primary, &Err(LpcError::PawnIo(failure))) {
            DiscoverStep::NothingHere => {}
            DiscoverStep::Fail(HalError::PermissionDenied(_)) => {}
            other => panic!("discovery should not go this way: {other:?}"),
        }
    }
}

#[test]
fn discovery_tries_both_slots_and_says_when_it_may_not_look() {
    assert_eq!(discover(Slot::Primary, &Ok(true)), DiscoverStep::Use);
    assert_eq!(
        discover(Slot::Primary, &Ok(false)),
        DiscoverStep::Probe(Slot::Secondary)
    );
    assert_eq!(discover(Slot::Secondary, &Ok(false)), DiscoverStep::NothingHere);
    assert_eq!(
        discover(
            Slot::Primary,
            &Err(LpcError::Bus(IsaBusError::Unavailable("x".into())))
        ),
        DiscoverStep::Probe(Slot::Secondary)
    );
    assert!(matches!(
        discover(Slot::Primary, &Err(LpcError::PawnIo(PawnIoError::AccessDenied))),
        DiscoverStep::Fail(HalError::PermissionDenied(_))
    ));
}

#[test]
fn a_slot_is_probed_for_its_identity_and_then_its_monitor() {
    match SuperIoBackend::probe(Probing::Fresh) {
        ProbeStep::Ask(script) => {
            assert_eq!(script, vec![Request::SuperIoWord { register: 0x20 }]);
        }
        other => panic!("{other:?}"),
    }
    match SuperIoBackend::probe(Probing::Identity { chip_id: 0xD42B }) {
        ProbeStep::Ask(script) => assert_eq!(script, Nct6775::locate()),
        other => panic!("{other:?}"),
    }
    match SuperIoBackend::probe(Probing::Base { chip_id: 0xD42B, register: 0x0295 }) {
        ProbeStep::Found { monitor, authorise } => {
            assert_eq!(Some(monitor.model()), identify(0xD42B));
            assert_eq!(monitor.base(), 0x0290);
            assert_eq!(authorise, vec![Request::FindBars]);
        }
        other => panic!("{other:?}"),
    }
    // A floating bus, an unknown chip and a monitor that is not mapped.
    for heard in [
        Probing::Identity { chip_id: 0xFFFF },
        Probing::Identity { chip_id: 0x0000 },
        Probing::Identity { chip_id: 0x1234 },
        Probing::Base { chip_id: 0xD42B, register: 0x0007 },
    ] {
        assert!(matches!(SuperIoBackend::probe(heard), ProbeStep::NothingHere));
    }
}
