//! The real hardware backend: a Super I/O hardware monitor, and what to ask of it.
//!
//! # Control is opt-in
//!
//! Control is **disabled until [`enable_control`](SuperIoBackend::enable_control) is called**.
//! Writing a PWM register should never become possible by accident.
//!
//! # The order that makes a mistake recoverable
//!
//! Taking a channel reads and records both register bytes — the fan mode (including the
//! firmware's tolerance nibble) and the duty — *before* anything is written, and giving it back
//! writes those exact bytes. Two orderings inside that are load-bearing:
//!
//! * the duty that was just read is written **before** the mode is switched to manual, because
//!   the fan otherwise jumps to whatever was last in the manual duty register;
//! * the duty is restored **before** the mode, so the firmware algorithm never runs for an
//!   instant against a duty we chose.
use crate::hal::{ChannelId, ChannelInfo, HalError, SensorId, SensorInfo, SensorKind};
use crate::lpc::{
    lpc_message, plausible_chip_id, LpcError, Request, Slot, BASE_ADDRESS_REGISTER, CHIP_ID_REGISTER,
    DEVICE_SELECT_REGISTER,
};
use crate::nct6775::{
    address_of, byte_of, byte_read, byte_written, decode_pwm, decode_rpm, decode_temp, duty_of,
    encode_pwm, id_of, identify, model_of, mode_from_register, mode_into_register, mode_said, modes_round_trip, remoded,
    requests_reach_their_register, temperature_in, FanMode, Model, Monitor, Nct6775, TempEncoding,
    BANK_SELECT, LD_HARDWARE_MONITOR, MAX_PLAUSIBLE_RPM, REG_FAN, TEMP_INPUTS,
};
use crate::ordmap::OrdMap;
use crate::pawnio::PawnIoError;
use crate::scalar::{whole, Scalar};
use crate::text::{digits, joined, numbered, same, Text};
use vstd::prelude::*;

verus! {

/// How many channels the chip has.
pub const CHANNELS: usize = 7;

/// Everything that giving a channel back needs, captured before anything was written: whole
/// register bytes, so that restoring is a byte-for-byte write-back.
#[derive(Debug, Clone, Copy, PartialEq, Eq, Structural)]
pub struct Acquired {
    /// The fan mode register as found, including the firmware's tolerance nibble.
    pub mode_register: u8,
    /// The duty as found.
    pub duty: u8,
}

/// Where each channel's mode and duty are written.
#[derive(Debug, Clone, Copy)]
pub struct ControlRegisters {
    pub mode: [u16; 7],
    pub duty: [u16; 7],
}

/// A Nuvoton Super I/O hardware monitor, and which of its channels are held.
pub struct SuperIoBackend {
    chip: Nct6775,
    control: ControlRegisters,
    acquired: [Option<Acquired>; 7],
    control_enabled: bool,
}

/// A backend, as contracts speak of it.
#[verifier::ext_equal]
pub struct BackendView {
    pub model: Model,
    pub base: u16,
    pub mode_registers: Seq<u16>,
    pub duty_registers: Seq<u16>,
    pub acquired: Seq<Option<Acquired>>,
    pub control_enabled: bool,
}

impl View for SuperIoBackend {
    type V = BackendView;

    closed spec fn view(&self) -> BackendView {
        BackendView {
            model: self.chip.model_said(),
            base: self.chip.base_said(),
            mode_registers: self.control.mode@,
            duty_registers: self.control.duty@,
            acquired: self.acquired@,
            control_enabled: self.control_enabled,
        }
    }
}

/// The id of a channel.
pub open spec fn channel_id(model: Model, index: nat) -> Text {
    id_of(model, "/pwm/"@, digits(index))
}

/// The first channel from `i` on that has an id.
pub open spec fn channel_at(model: Model, id: Text, i: nat) -> Option<nat>
    decreases CHANNELS - i,
{
    if i >= CHANNELS {
        None
    } else if channel_id(model, i) == id {
        Some(i)
    } else {
        channel_at(model, id, i + 1)
    }
}

/// What is said while control is off: a deliberate state, not a broken driver.
pub open spec fn off_message(model: Model) -> Text {
    model.name_said()
        + " is enumerated and readable, but PWM control is not enabled on this backend. Control is opt-in during Phase 3 bring-up; see plans/open-fan.md."@
}

/// One register to read, and whether it is a word.
#[derive(Debug, Clone, Copy, PartialEq, Eq, Structural)]
pub struct SensorRead {
    pub register: u16,
    pub word_sized: bool,
}

/// What is asked of an acquire, a duty or a release that is not on.
pub open spec fn refused(b: BackendView, channel: Text, e: HalError) -> bool {
    if !b.control_enabled {
        e matches HalError::Unavailable(s) && s@ == off_message(b.model)
    } else {
        e matches HalError::UnknownChannel(s) && s@ == channel && channel_at(b.model, channel, 0)
            is None
    }
}

/// The requests that take a channel: its duty is written as it was found, and then its mode
/// is switched to manual.
pub open spec fn taking(b: BackendView, index: int, found: Acquired) -> Seq<Request> {
    byte_written(b.base, b.duty_registers[index], found.duty) + byte_written(
        b.base,
        b.mode_registers[index],
        remoded(found.mode_register, FanMode::Manual) as u8,
    )
}

/// The requests that give a channel back: its duty as it was found, and then its mode.
pub open spec fn giving_back(b: BackendView, index: int, found: Acquired) -> Seq<Request> {
    byte_written(b.base, b.duty_registers[index], found.duty) + byte_written(
        b.base,
        b.mode_registers[index],
        found.mode_register,
    )
}

fn followed_by(first: Vec<Request>, second: Vec<Request>) -> (r: Vec<Request>)
    ensures
        r@ == first@ + second@,
{
    let mut out = first;
    let mut rest = second;
    out.append(&mut rest);
    out
}

impl SuperIoBackend {
    /// There is a place for every channel, in the records and among the registers.
    pub proof fn a_place_is_kept_for_every_channel(&self)
        ensures
            self@.acquired.len() == CHANNELS,
            self@.mode_registers.len() == CHANNELS,
            self@.duty_registers.len() == CHANNELS,
    {
    }

    /// A backend for a monitor that was found. Nothing is held, and control is off.
    pub fn new(chip: Nct6775, control: ControlRegisters) -> (r: SuperIoBackend)
        ensures
            r@.model == chip.model_said(),
            r@.base == chip.base_said(),
            r@.mode_registers == control.mode@,
            r@.duty_registers == control.duty@,
            r@.acquired == Seq::new(7, |i: int| None::<Acquired>),
            !r@.control_enabled,
    {
        let r = SuperIoBackend {
            chip,
            control,
            acquired: [None, None, None, None, None, None, None],
            control_enabled: false,
        };
        assert(r@.acquired =~= Seq::new(7, |i: int| None::<Acquired>));
        r
    }

    /// Permits this backend to write PWM registers: a decision, and never a default.
    pub fn enable_control(&mut self)
        ensures
            final(self)@ == (BackendView { control_enabled: true, ..old(self)@ }),
    {
        self.control_enabled = true;
    }

    /// Whether this backend may write PWM registers.
    pub fn control_enabled(&self) -> (r: bool)
        ensures
            r == self@.control_enabled,
    {
        self.control_enabled
    }

    fn control_not_enabled(&self) -> (r: HalError)
        ensures
            r matches HalError::Unavailable(s) && s@ == off_message(self@.model),
    {
        HalError::Unavailable(
            joined(
                self.chip.model().name(),
                " is enumerated and readable, but PWM control is not enabled on this backend. Control is opt-in during Phase 3 bring-up; see plans/open-fan.md.",
            ),
        )
    }

    /// Channel index from an id we issued, rejecting anything else.
    pub fn index_of(&self, channel: &ChannelId) -> (r: Result<usize, HalError>)
        ensures
            match r {
                Ok(i) => channel_at(self@.model, channel@, 0) == Some(i as nat) && i < CHANNELS,
                Err(HalError::UnknownChannel(id)) => id@ == channel@ && channel_at(
                    self@.model,
                    channel@,
                    0,
                ) is None,
                Err(_) => false,
            },
    {
        for i in 0..CHANNELS
            invariant
                channel_at(self@.model, channel@, 0) == channel_at(
                    self@.model,
                    channel@,
                    i as nat,
                ),
        {
            if same(self.chip.pwm_id(i).as_str(), channel.as_str()) {
                return Ok(i);
            }
        }
        Err(HalError::UnknownChannel(channel.clone()))
    }

    /// Whether a channel may be controlled, and which one it is.
    fn controlled(&self, channel: &ChannelId) -> (r: Result<usize, HalError>)
        ensures
            match r {
                Ok(i) => self@.control_enabled && channel_at(self@.model, channel@, 0) == Some(
                    i as nat,
                ) && i < CHANNELS,
                Err(e) => refused(self@, channel@, e),
            },
    {
        if !self.control_enabled {
            return Err(self.control_not_enabled());
        }
        self.index_of(channel)
    }

    /// The requests that read the mode and the duty a channel is configured with.
    pub fn state_reads(&self, index: usize) -> (r: (Vec<Request>, Vec<Request>))
        requires
            index < CHANNELS,
        ensures
            r.0@ == byte_read(self@.base, self@.mode_registers[index as int]),
            r.1@ == byte_read(self@.base, self@.duty_registers[index as int]),
    {
        (
            self.chip.read_byte(self.control.mode[index]),
            self.chip.read_byte(self.control.duty[index]),
        )
    }

    /// The channel to take, if there is one to take: one that we already hold keeps its
    /// *original* recording, which is the only copy of the firmware's configuration.
    pub fn acquire(&self, channel: &ChannelId) -> (r: Result<Option<usize>, HalError>)
        ensures
            match r {
                Ok(Some(i)) => self@.control_enabled && channel_at(self@.model, channel@, 0)
                    == Some(i as nat) && i < CHANNELS && self@.acquired[i as int] is None,
                Ok(None) => self@.control_enabled && (channel_at(
                    self@.model,
                    channel@,
                    0,
                ) matches Some(i) && i < CHANNELS && self@.acquired[i as int] is Some),
                Err(e) => refused(self@, channel@, e),
            },
    {
        let index = match self.controlled(channel) {
            Ok(index) => index,
            Err(e) => {
                return Err(e);
            },
        };
        match self.acquired[index] {
            Some(_) => Ok(None),
            None => Ok(Some(index)),
        }
    }

    /// The requests that take a channel whose registers were found as they are said to be.
    pub fn take(&self, index: usize, found: Acquired) -> (r: Vec<Request>)
        requires
            index < CHANNELS,
        ensures
            r@ == taking(self@, index as int, found),
    {
        proof {
            modes_round_trip(found.mode_register, FanMode::Manual);
        }
        let manual = mode_into_register(found.mode_register, FanMode::Manual);
        followed_by(
            self.chip.write_byte(self.control.duty[index], found.duty),
            self.chip.write_byte(self.control.mode[index], manual),
        )
    }

    /// Records what a channel was found with. Only once its requests have succeeded: a channel
    /// that was never taken must not be "restored".
    pub fn taken(&mut self, index: usize, found: Acquired)
        requires
            index < CHANNELS,
        ensures
            final(self)@ == (BackendView {
                acquired: old(self)@.acquired.update(index as int, Some(found)),
                ..old(self)@
            }),
    {
        self.acquired[index] = Some(found);
    }

    /// The requests that command a duty, in percent, on a channel that we hold.
    ///
    /// Refusing rather than implicitly taking: that would capture the *current* configuration
    /// as the firmware's, at an arbitrary moment.
    pub fn set_duty(&self, channel: &ChannelId, percent: Scalar) -> (r: Result<
        Vec<Request>,
        HalError,
    >)
        ensures
            match r {
                Ok(requests) => self@.control_enabled && (channel_at(
                    self@.model,
                    channel@,
                    0,
                ) matches Some(i) && self@.acquired[i as int] is Some && requests@ == byte_written(
                    self@.base,
                    self@.duty_registers[i as int],
                    byte_of(percent) as u8,
                )),
                Err(HalError::NotAcquired(id)) => id@ == channel@ && self@.control_enabled && (
                channel_at(self@.model, channel@, 0) matches Some(i) && self@.acquired[i as int]
                    is None),
                Err(e) => refused(self@, channel@, e),
            },
    {
        let index = match self.controlled(channel) {
            Ok(index) => index,
            Err(e) => {
                return Err(e);
            },
        };
        match self.acquired[index] {
            Some(_) => Ok(self.chip.write_byte(self.control.duty[index], encode_pwm(percent))),
            None => Err(HalError::NotAcquired(channel.clone())),
        }
    }

    /// The requests that give a channel back exactly as it was found. Nothing to restore is
    /// success, not an error.
    pub fn release(&self, channel: &ChannelId) -> (r: Result<
        Option<(usize, Vec<Request>)>,
        HalError,
    >)
        ensures
            match r {
                Ok(Some((i, requests))) => channel_at(self@.model, channel@, 0) == Some(i as nat)
                    && i < CHANNELS && (self@.acquired[i as int] matches Some(found) && requests@
                    == giving_back(self@, i as int, found)),
                Ok(None) => channel_at(self@.model, channel@, 0) matches Some(i)
                    && self@.acquired[i as int] is None,
                Err(HalError::UnknownChannel(id)) => id@ == channel@ && channel_at(
                    self@.model,
                    channel@,
                    0,
                ) is None,
                Err(_) => false,
            },
    {
        let index = match self.index_of(channel) {
            Ok(index) => index,
            Err(e) => {
                return Err(e);
            },
        };
        match self.acquired[index] {
            None => Ok(None),
            Some(found) => Ok(
                Some(
                    (
                        index,
                        followed_by(
                            self.chip.write_byte(self.control.duty[index], found.duty),
                            self.chip.write_byte(self.control.mode[index], found.mode_register),
                        ),
                    ),
                ),
            ),
        }
    }

    /// Forgets what a channel was found with. Only once its requests have succeeded: while any
    /// part of the restore can still fail, the recording is the only copy.
    pub fn released(&mut self, index: usize)
        requires
            index < CHANNELS,
        ensures
            final(self)@ == (BackendView {
                acquired: old(self)@.acquired.update(index as int, None),
                ..old(self)@
            }),
    {
        self.acquired[index] = None;
    }

    /// Whether giving a channel back genuinely restores firmware control.
    ///
    /// The mechanism is exact, but where another controller already put a header in manual mode,
    /// what was captured is that tool's configuration. So this does not claim it.
    pub fn can_restore_firmware_control(&self) -> (r: bool)
        ensures
            !r,
    {
        false
    }

    /// What the chip is called.
    pub fn name(&self) -> (r: String)
        ensures
            r@ == self@.model.name_said(),
    {
        self.chip.model().name().to_owned()
    }

    /// Who drives a channel and at what duty, given its mode and duty registers.
    pub fn channel_state(mode_register: u8, duty: u8) -> (r: (FanMode, Scalar))
        ensures
            r.0 == mode_said(mode_register),
            r.1 == duty_of(duty),
    {
        (mode_from_register(mode_register), decode_pwm(duty))
    }

    /// What the chip can read: its temperatures, then its tachometers.
    pub fn sensors(&self) -> (r: Vec<SensorInfo>)
        ensures
            r@.len() == 9,
            forall|i: int| 0 <= i < 9 ==> is_sensor(self@.model, #[trigger] r@[i], i),
    {
        let mut out: Vec<SensorInfo> = Vec::new();
        for i in 0..2usize
            invariant
                out@.len() == i,
                forall|k: int| 0 <= k < i ==> is_sensor(self@.model, #[trigger] out@[k], k),
        {
            let input = TEMP_INPUTS[i];
            out.push(
                SensorInfo {
                    id: self.chip.temp_id(input),
                    label: input.label().to_owned(),
                    kind: SensorKind::Temperature,
                },
            );
        }
        for i in 0..CHANNELS
            invariant
                out@.len() == 2 + i,
                forall|k: int| 0 <= k < 2 + i ==> is_sensor(self@.model, #[trigger] out@[k], k),
        {
            out.push(
                SensorInfo {
                    id: self.chip.fan_id(i),
                    label: numbered("Fan ", i as u64),
                    kind: SensorKind::Fan,
                },
            );
        }
        out
    }

    /// The chip's PWM outputs. Every channel the *chip* has is listed: which of them a *board*
    /// brings out to a header cannot be discovered from the chip.
    pub fn channels(&self) -> (r: Vec<ChannelInfo>)
        ensures
            r@.len() == CHANNELS,
            forall|i: int|
                0 <= i < CHANNELS ==> is_channel(self@.model, #[trigger] r@[i], i as nat),
    {
        let mut out: Vec<ChannelInfo> = Vec::new();
        for i in 0..CHANNELS
            invariant
                out@.len() == i,
                forall|k: int| 0 <= k < i ==> is_channel(self@.model, #[trigger] out@[k], k as nat),
        {
            out.push(
                ChannelInfo {
                    id: self.chip.pwm_id(i),
                    label: numbered("PWM ", i as u64),
                    tachometer: Some(self.chip.fan_id(i)),
                    min_reliable_duty: None,
                },
            );
        }
        out
    }

    /// The registers that hold the sensors, in the order of [`sensors`](Self::sensors).
    pub fn sensor_reads(&self) -> (r: Vec<SensorRead>)
        ensures
            r@.len() == 9,
            forall|i: int| 0 <= i < 9 ==> (#[trigger] r@[i]) == read_of(i),
    {
        let mut out: Vec<SensorRead> = Vec::new();
        for i in 0..2usize
            invariant
                out@.len() == i,
                forall|k: int| 0 <= k < i ==> (#[trigger] out@[k]) == read_of(k),
        {
            let input = TEMP_INPUTS[i];
            let word_sized = match input.encoding() {
                TempEncoding::SignedByte => false,
                TempEncoding::SignedWord => true,
                TempEncoding::Tsi => true,
            };
            out.push(SensorRead { register: input.register(), word_sized });
        }
        for i in 0..CHANNELS
            invariant
                out@.len() == 2 + i,
                forall|k: int| 0 <= k < 2 + i ==> (#[trigger] out@[k]) == read_of(k),
        {
            out.push(SensorRead { register: REG_FAN[i], word_sized: true });
        }
        out
    }

    /// What the registers say, given what came of reading each. A sensor that did not read, or
    /// reads implausibly, is **omitted**: a substituted value would look like a measurement.
    pub fn readings(&self, raw: &Vec<Option<u16>>) -> (r: OrdMap<SensorId, Scalar>)
        requires
            raw@.len() == 9,
        ensures
            r@ == read_to(self@.model, raw@, 9),
    {
        let mut out: OrdMap<SensorId, Scalar> = OrdMap::new();
        for i in 0..2usize
            invariant
                raw@.len() == 9,
                out@ == read_to(self@.model, raw@, i as nat),
        {
            let input = TEMP_INPUTS[i];
            if let Some(word) = raw[i] {
                if let Some(celsius) = decode_temp(input.encoding(), word) {
                    out.insert(self.chip.temp_id(input), celsius);
                }
            }
        }
        for i in 0..CHANNELS
            invariant
                raw@.len() == 9,
                out@ == read_to(self@.model, raw@, (2 + i) as nat),
        {
            if let Some(word) = raw[2 + i] {
                if let Some(rpm) = decode_rpm(word) {
                    out.insert(self.chip.fan_id(i), rpm);
                }
            }
        }
        out
    }
}

/// The id of a sensor.
pub open spec fn sensor_id(model: Model, i: int) -> Text {
    if i < 2 {
        id_of(model, "/temp/"@, TEMP_INPUTS[i].key_said())
    } else {
        id_of(model, "/fan/"@, digits((i - 2) as nat))
    }
}

/// Whether this describes a sensor.
pub open spec fn is_sensor(model: Model, s: SensorInfo, i: int) -> bool {
    &&& s.id@ == sensor_id(model, i)
    &&& s.label@ == if i < 2 {
        TEMP_INPUTS[i].label_said()
    } else {
        "Fan "@ + digits((i - 2) as nat)
    }
    &&& s.kind == if i < 2 {
        SensorKind::Temperature
    } else {
        SensorKind::Fan
    }
}

/// Whether this describes a channel: tachometer N reads back channel N, and the lowest duty it
/// turns at is not known.
pub open spec fn is_channel(model: Model, c: ChannelInfo, i: nat) -> bool {
    &&& c.id@ == channel_id(model, i)
    &&& c.label@ == "PWM "@ + digits(i)
    &&& (c.tachometer matches Some(t) && t@ == id_of(model, "/fan/"@, digits(i)))
    &&& c.min_reliable_duty is None
}

/// The register that holds a sensor.
pub open spec fn read_of(i: int) -> SensorRead {
    if i < 2 {
        SensorRead {
            register: TEMP_INPUTS[i].register_said(),
            word_sized: !(TEMP_INPUTS[i].encoding_said() is SignedByte),
        }
    } else {
        SensorRead { register: REG_FAN[i - 2], word_sized: true }
    }
}

/// What a sensor's register says, if it says anything.
pub open spec fn said_by(i: int, word: u16) -> Option<Scalar> {
    if i < 2 {
        temperature_in(TEMP_INPUTS[i].encoding_said(), word)
    } else if word <= MAX_PLAUSIBLE_RPM {
        Some(whole(word as nat))
    } else {
        None
    }
}

/// What the first `n` sensors say.
pub open spec fn read_to(model: Model, raw: Seq<Option<u16>>, n: nat) -> Map<Text, Scalar>
    decreases n,
{
    if n == 0 {
        Map::empty()
    } else {
        let before = read_to(model, raw, (n - 1) as nat);
        match raw[n - 1] {
            Some(word) => match said_by(n - 1, word) {
                Some(value) => before.insert(sensor_id(model, n - 1), value),
                None => before,
            },
            None => before,
        }
    }
}

/// What a bus failure comes to: the cases that lead to different things a user should do are
/// kept apart.
pub fn hal_error(e: LpcError) -> (r: HalError)
    ensures
        match e {
            LpcError::PawnIo(PawnIoError::AccessDenied) => r matches HalError::PermissionDenied(s)
                && s@ == "Super I/O access via PawnIO"@,
            LpcError::PawnIo(PawnIoError::NotInstalled) => r matches HalError::DriverMissing(s)
                && s@ == lpc_message(e),
            LpcError::PawnIo(PawnIoError::ModuleNotFound { .. }) => r matches HalError::DriverMissing(
                s,
            ) && s@ == lpc_message(e),
            _ => r matches HalError::Io(s) && s@ == lpc_message(e),
        },
{
    match &e {
        LpcError::PawnIo(PawnIoError::AccessDenied) => HalError::PermissionDenied(
            "Super I/O access via PawnIO".to_owned(),
        ),
        LpcError::PawnIo(PawnIoError::NotInstalled) => HalError::DriverMissing(e.message()),
        LpcError::PawnIo(PawnIoError::ModuleNotFound { .. }) => HalError::DriverMissing(
            e.message(),
        ),
        _ => HalError::Io(e.message()),
    }
}

/// What probing an unlocked slot has heard so far.
#[derive(Debug, Clone, Copy, PartialEq, Eq, Structural)]
pub enum Probing {
    /// Nothing yet.
    Fresh,
    /// What stands in the identifier register.
    Identity { chip_id: u16 },
    /// What stands in the monitor's base register, too.
    Base { chip_id: u16, register: u16 },
}

/// What to do next when probing.
#[derive(Debug, Clone)]
pub enum ProbeStep {
    /// Perform this, and hand back what its one read gave.
    Ask(Vec<Request>),
    /// Perform this, which lets the module touch the monitor's ports, and use the monitor.
    Found { monitor: Nct6775, authorise: Vec<Request> },
    /// Nothing supported is here, which is an ordinary outcome.
    NothingHere,
}

impl SuperIoBackend {
    /// What to do next when probing an unlocked slot for a supported monitor: the identifier
    /// is read first, then the base register of a chip that is recognised.
    pub fn probe(heard: Probing) -> (r: ProbeStep)
        ensures
            match heard {
                Probing::Fresh => r matches ProbeStep::Ask(script) && script@ == seq![
                    Request::SuperIoWord { register: CHIP_ID_REGISTER },
                ],
                Probing::Identity { chip_id } => if chip_id != 0x0000 && chip_id != 0xFFFF
                    && model_of(chip_id) is Some {
                    r matches ProbeStep::Ask(script) && script@ == seq![
                        Request::SuperIoOut {
                            register: DEVICE_SELECT_REGISTER,
                            value: LD_HARDWARE_MONITOR,
                        },
                        Request::SuperIoWord { register: BASE_ADDRESS_REGISTER },
                    ]
                } else {
                    r is NothingHere
                },
                Probing::Base { chip_id, register } => if model_of(chip_id) is Some && address_of(
                    register,
                ) != 0 {
                    r matches ProbeStep::Found { monitor, authorise } && Some(monitor.model_said())
                        == model_of(chip_id) && monitor.base_said() == address_of(register)
                        && authorise@ == seq![Request::FindBars]
                } else {
                    r is NothingHere
                },
            },
    {
        match heard {
            Probing::Fresh => {
                let script = vec![Request::SuperIoWord { register: CHIP_ID_REGISTER }];
                assert(script@ =~= seq![Request::SuperIoWord { register: CHIP_ID_REGISTER }]);
                ProbeStep::Ask(script)
            },
            Probing::Identity { chip_id } => match plausible_chip_id(chip_id) {
                Some(id) if identify(id).is_some() => ProbeStep::Ask(Nct6775::locate()),
                _ => ProbeStep::NothingHere,
            },
            Probing::Base { chip_id, register } => match Nct6775::probe(chip_id, register) {
                Some(monitor) => {
                    let authorise = vec![Request::FindBars];
                    assert(authorise@ =~= seq![Request::FindBars]);
                    ProbeStep::Found { monitor, authorise }
                },
                None => ProbeStep::NothingHere,
            },
        }
    }
}

/// What to do after probing a slot.
#[derive(Debug, Clone, PartialEq)]
pub enum DiscoverStep {
    /// Use what was found.
    Use,
    /// Probe another slot.
    Probe(Slot),
    /// There is nothing here, which is an ordinary outcome.
    NothingHere,
    /// Something that the user can act on.
    Fail(HalError),
}

/// What to do after probing a slot, given whether a supported chip was found there.
///
/// No driver and no module are an ordinary first-run state; not running elevated is an error,
/// because it would otherwise look identical to having no hardware at all. Any other failure
/// rules out that slot alone.
pub fn discover(slot: Slot, probed: &Result<bool, LpcError>) -> (r: DiscoverStep)
    ensures
        match *probed {
            Ok(true) => r is Use,
            Err(LpcError::PawnIo(PawnIoError::AccessDenied)) => r matches DiscoverStep::Fail(
                HalError::PermissionDenied(s),
            ) && s@ == "PawnIO requires OpenFan to run as administrator"@,
            Err(LpcError::PawnIo(PawnIoError::NotInstalled)) => r is NothingHere,
            Err(LpcError::PawnIo(PawnIoError::ModuleNotFound { .. })) => r is NothingHere,
            _ => r == match slot {
                Slot::Primary => DiscoverStep::Probe(Slot::Secondary),
                Slot::Secondary => DiscoverStep::NothingHere,
            },
        },
{
    match probed {
        Ok(true) => {
            return DiscoverStep::Use;
        },
        Err(LpcError::PawnIo(PawnIoError::AccessDenied)) => {
            return DiscoverStep::Fail(
                HalError::PermissionDenied(
                    "PawnIO requires OpenFan to run as administrator".to_owned(),
                ),
            );
        },
        Err(LpcError::PawnIo(PawnIoError::NotInstalled)) => {
            return DiscoverStep::NothingHere;
        },
        Err(LpcError::PawnIo(PawnIoError::ModuleNotFound { .. })) => {
            return DiscoverStep::NothingHere;
        },
        _ => {},
    }
    match slot.next() {
        Some(next) => DiscoverStep::Probe(next),
        None => DiscoverStep::NothingHere,
    }
}

// --- Laws ----------------------------------------------------------------------------------------

/// What requests leave in a monitor's registers.
pub open spec fn left_by(m: Monitor, base: u16, requests: Seq<Request>) -> Monitor {
    m.after_all(base, requests, requests.len())
}

proof fn lemma_prefix(m: Monitor, base: u16, a: Seq<Request>, b: Seq<Request>, n: nat)
    requires
        n <= a.len() + b.len(),
    ensures
        n <= a.len() ==> m.after_all(base, a + b, n) == m.after_all(base, a, n),
        n > a.len() ==> m.after_all(base, a + b, n) == left_by(m, base, a).after_all(
            base,
            b,
            (n - a.len()) as nat,
        ),
    decreases n,
{
    if n > 0 {
        lemma_prefix(m, base, a, b, (n - 1) as nat);
        if n > a.len() {
            let k = (n - a.len()) as nat;
            assert((a + b)[n - 1] == b[k - 1]);
            assert(left_by(m, base, a).after_all(base, b, k) == left_by(m, base, a).after_all(
                base,
                b,
                (k - 1) as nat,
            ).after(base, b[k - 1]));
        } else {
            assert((a + b)[n - 1] == a[n - 1]);
        }
    }
}

proof fn lemma_two_writes(m: Monitor, base: u16, r1: u16, v1: u8, r2: u16, v2: u8)
    requires
        base <= 0xFFF8,
        r1 % 256 != BANK_SELECT,
        r2 % 256 != BANK_SELECT,
    ensures
        left_by(m, base, byte_written(base, r1, v1) + byte_written(base, r2, v2)).registers
            == m.registers.insert(r1 as int, v1).insert(r2 as int, v2),
{
    let a = byte_written(base, r1, v1);
    let b = byte_written(base, r2, v2);
    lemma_prefix(m, base, a, b, 8);
    requests_reach_their_register(m, base, r1, v1);
    requests_reach_their_register(left_by(m, base, a), base, r2, v2);
}

/// Whether a channel's control registers are two different registers that the requests reach,
/// and hold what was found.
pub open spec fn found_in(m: Monitor, b: BackendView, index: int, found: Acquired) -> bool {
    let mode = b.mode_registers[index];
    let duty = b.duty_registers[index];
    &&& b.base <= 0xFFF8
    &&& mode % 256 != BANK_SELECT
    &&& duty % 256 != BANK_SELECT
    &&& mode != duty
    &&& m.registers.dom().contains(mode as int)
    &&& m.registers.dom().contains(duty as int)
    &&& m.registers[mode as int] == found.mode_register
    &&& m.registers[duty as int] == found.duty
}

/// Taking a channel changes its mode alone: to manual, with the tolerance nibble as it was. The
/// duty stays what it was, so the fan does not jump.
pub proof fn taking_a_channel_keeps_its_duty(
    m: Monitor,
    b: BackendView,
    index: int,
    found: Acquired,
)
    requires
        0 <= index < CHANNELS,
        found_in(m, b, index, found),
    ensures
        left_by(m, b.base, taking(b, index, found)).registers == m.registers.insert(
            b.mode_registers[index] as int,
            remoded(found.mode_register, FanMode::Manual) as u8,
        ),
{
    let manual = remoded(found.mode_register, FanMode::Manual) as u8;
    let mode = b.mode_registers[index];
    let duty = b.duty_registers[index];
    lemma_two_writes(m, b.base, duty, found.duty, mode, manual);
    assert(m.registers.insert(duty as int, found.duty) =~= m.registers);
}

/// The monitor after duties were written to a channel, one after the other.
pub open spec fn driven_by(m: Monitor, b: BackendView, index: int, duties: Seq<u8>) -> Monitor
    decreases duties.len(),
{
    if duties.len() == 0 {
        m
    } else {
        left_by(
            driven_by(m, b, index, duties.drop_last()),
            b.base,
            byte_written(b.base, b.duty_registers[index], duties.last()),
        )
    }
}

/// Duties change the duty register alone.
proof fn lemma_driven(m: Monitor, b: BackendView, index: int, duties: Seq<u8>)
    requires
        b.base <= 0xFFF8,
        b.duty_registers[index] % 256 != BANK_SELECT,
    ensures
        driven_by(m, b, index, duties).registers == if duties.len() == 0 {
            m.registers
        } else {
            m.registers.insert(b.duty_registers[index] as int, duties.last())
        },
    decreases duties.len(),
{
    if duties.len() > 0 {
        let rest = duties.drop_last();
        let duty = b.duty_registers[index];
        lemma_driven(m, b, index, rest);
        requests_reach_their_register(driven_by(m, b, index, rest), b.base, duty, duties.last());
        assert(driven_by(m, b, index, duties).registers =~= m.registers.insert(
            duty as int,
            duties.last(),
        ));
    }
}

/// Giving a channel back restores it exactly: whatever duties were commanded while it was held,
/// and however many, every register is as it was before the channel was taken.
pub proof fn giving_a_channel_back_restores_it(
    m: Monitor,
    b: BackendView,
    index: int,
    found: Acquired,
    duties: Seq<u8>,
)
    requires
        0 <= index < CHANNELS,
        found_in(m, b, index, found),
    ensures
        ({
            let held = left_by(m, b.base, taking(b, index, found));
            let driven = driven_by(held, b, index, duties);
            left_by(driven, b.base, giving_back(b, index, found)).registers == m.registers
        }),
{
    let mode = b.mode_registers[index];
    let duty = b.duty_registers[index];
    taking_a_channel_keeps_its_duty(m, b, index, found);
    let held = left_by(m, b.base, taking(b, index, found));
    lemma_driven(held, b, index, duties);
    let driven = driven_by(held, b, index, duties);
    lemma_two_writes(driven, b.base, duty, found.duty, mode, found.mode_register);
    let given = left_by(driven, b.base, giving_back(b, index, found));
    assert(given.registers =~= m.registers);
}

} // verus!
