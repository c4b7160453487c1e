//! Hardware abstraction.
//!
//! Everything the engine knows about real hardware goes through these traits. Two rules
//! shape them:
//!
//! 1. **Reads are batched per tick.** A backend is asked for all of its readings at once so
//!    it can do one bus transaction instead of one per sensor.
//! 2. **Acquiring a channel is a borrow, not a takeover.** [`OutputChannel::acquire`]
//!    captures whatever the firmware had configured so [`OutputChannel::release`] can put it
//!    back.
//!
//! A backend answers for its own successes and failures. What contracts speak of is what it
//! was *asked* and what it *answered*: [`OutputChannel::log`] is the list of requests that
//! reached it, each with whether it succeeded, and [`OutputChannel::last_read`] is what the
//! last read of its sensors gave.
use crate::ordmap::OrdMap;
use crate::scalar::Scalar;
use crate::text::{joined, Text};
use vstd::prelude::*;

verus! {

/// Stable identifier for a sensor, unique within a backend, e.g. `nct6687/temp/cpu`.
pub type SensorId = String;

/// Stable identifier for a controllable output, e.g. `nct6687/pwm/2`.
pub type ChannelId = String;

/// What a sensor measures.
#[derive(Debug, Clone, Copy, PartialEq, Eq, Structural)]
pub enum SensorKind {
    Temperature,
    Fan,
    Voltage,
    Current,
    Power,
    Load,
}

/// A sensor a backend found on the machine.
#[derive(Debug, Clone, PartialEq)]
pub struct SensorInfo {
    pub id: SensorId,
    /// Name as the hardware reports it, before any user renaming.
    pub label: String,
    pub kind: SensorKind,
}

/// A controllable output and what it can physically do.
#[derive(Debug, Clone, PartialEq)]
pub struct ChannelInfo {
    pub id: ChannelId,
    pub label: String,
    /// The tachometer that reads back this channel's speed, when one is wired to it.
    pub tachometer: Option<SensorId>,
    /// Lowest duty the device will still reliably spin at. Below this a fan may stall
    /// silently, which reads as "quiet" and is in fact "not cooling".
    pub min_reliable_duty: Option<Scalar>,
}

/// Anything that can be wrong with a hardware backend.
#[derive(Debug, Clone, PartialEq)]
pub enum HalError {
    Unavailable(String),
    DriverMissing(String),
    PermissionDenied(String),
    UnknownSensor(SensorId),
    UnknownChannel(ChannelId),
    NotAcquired(ChannelId),
    Io(String),
}

/// How an error reads.
pub open spec fn hal_message(e: HalError) -> Text {
    match e {
        HalError::Unavailable(s) => "hardware backend unavailable: "@ + s@,
        HalError::DriverMissing(s) => "required driver is not installed: "@ + s@,
        HalError::PermissionDenied(s) => "administrator privileges are required for "@ + s@,
        HalError::UnknownSensor(s) => "unknown sensor "@ + s@,
        HalError::UnknownChannel(s) => "unknown channel "@ + s@,
        HalError::NotAcquired(s) => "channel "@ + s@ + " is not currently under our control"@,
        HalError::Io(s) => "hardware I/O failed: "@ + s@,
    }
}

impl HalError {
    /// How this error reads.
    pub fn message(&self) -> (r: String)
        ensures
            r@ == hal_message(*self),
    {
        match self {
            HalError::Unavailable(s) => joined("hardware backend unavailable: ", s.as_str()),
            HalError::DriverMissing(s) => joined("required driver is not installed: ", s.as_str()),
            HalError::PermissionDenied(s) => joined(
                "administrator privileges are required for ",
                s.as_str(),
            ),
            HalError::UnknownSensor(s) => joined("unknown sensor ", s.as_str()),
            HalError::UnknownChannel(s) => joined("unknown channel ", s.as_str()),
            HalError::NotAcquired(s) => joined(
                joined("channel ", s.as_str()).as_str(),
                " is not currently under our control",
            ),
            HalError::Io(s) => joined("hardware I/O failed: ", s.as_str()),
        }
    }
}

/// Who is driving an output channel.
#[derive(Debug, Clone, Copy, PartialEq, Eq, Structural)]
pub enum ChannelControl {
    /// The device's own algorithm: a BIOS fan curve or equivalent.
    Firmware,
    /// We acquired it and are responsible for it.
    Ours,
    /// Under manual control that is not ours. Either another application is driving it, or
    /// one left it this way and **nothing** is.
    Foreign,
    /// The backend cannot tell. Not a synonym for "nobody else".
    Unknown,
}

impl ChannelControl {
    /// Whether something is demonstrably responsible for this channel.
    ///
    /// `Foreign` is *not* safe: it covers the abandoned case, where the duty is frozen and
    /// nothing will react to a rising temperature.
    pub fn is_accounted_for(self) -> (r: bool)
        ensures
            r == (self is Firmware || self is Ours),
    {
        match self {
            ChannelControl::Firmware | ChannelControl::Ours => true,
            ChannelControl::Foreign | ChannelControl::Unknown => false,
        }
    }
}

/// A request that reached a backend, and whether it succeeded.
pub enum Event {
    Acquire { channel: Text, ok: bool },
    SetDuty { channel: Text, duty: Scalar, ok: bool },
    Release { channel: Text, ok: bool },
    HandBack { channel: Text, answer: Result<(), HalError> },
}

impl Event {
    /// Whether the request succeeded.
    pub open spec fn succeeded(self) -> bool {
        match self {
            Event::Acquire { ok, .. } => ok,
            Event::SetDuty { ok, .. } => ok,
            Event::Release { ok, .. } => ok,
            Event::HandBack { answer, .. } => answer is Ok,
        }
    }

    /// The channel the request was about.
    pub open spec fn about(self) -> Text {
        match self {
            Event::Acquire { channel, .. } => channel,
            Event::SetDuty { channel, .. } => channel,
            Event::Release { channel, .. } => channel,
            Event::HandBack { channel, .. } => channel,
        }
    }
}

/// A backend that can drive outputs.
pub trait OutputChannel: Sized {
    /// The requests that reached this backend so far. A verified backend says what they
    /// are; one that is not verified has nothing to say, and leaves this out.
    open spec fn log(&self) -> Seq<Event> {
        Seq::empty()
    }

    /// Whether this backend can genuinely restore firmware control on release: a property of
    /// the hardware, which no request changes. Left out, like the log, by a backend that is
    /// not verified.
    open spec fn restores(&self) -> bool {
        false
    }

    /// What the last read of this backend's sensors gave; nothing before the first. Left out,
    /// like the log, by a backend that is not verified.
    open spec fn last_read(&self) -> Result<Map<Text, Scalar>, HalError> {
        Ok(Map::empty())
    }

    /// Enumerates controllable outputs.
    fn channels(&self) -> (r: Result<Vec<ChannelInfo>, HalError>);

    /// Takes control of a channel, recording the firmware's existing configuration so it
    /// can be restored later. Must be idempotent.
    fn acquire(&mut self, channel: &ChannelId) -> (r: Result<(), HalError>)
        ensures
            final(self).log() == old(self).log().push(
                Event::Acquire { channel: channel@, ok: r is Ok },
            ),
            final(self).restores() == old(self).restores(),
            final(self).last_read() == old(self).last_read(),
    ;

    /// Commands a duty in percent. The channel must have been acquired first.
    fn set_duty(&mut self, channel: &ChannelId, percent: Scalar) -> (r: Result<(), HalError>)
        ensures
            final(self).log() == old(self).log().push(
                Event::SetDuty { channel: channel@, duty: percent, ok: r is Ok },
            ),
            final(self).restores() == old(self).restores(),
            final(self).last_read() == old(self).last_read(),
    ;

    /// Hands the channel back to the firmware, restoring the configuration captured when it
    /// was acquired.
    fn release(&mut self, channel: &ChannelId) -> (r: Result<(), HalError>)
        ensures
            final(self).log() == old(self).log().push(
                Event::Release { channel: channel@, ok: r is Ok },
            ),
            final(self).restores() == old(self).restores(),
            final(self).last_read() == old(self).last_read(),
    ;

    /// Whether this backend can genuinely restore firmware control on release. When false,
    /// the failsafe for these channels must be a fixed duty instead.
    fn can_restore_firmware_control(&self) -> (r: bool)
        ensures
            r == self.restores(),
    ;

    /// Who is driving this channel right now.
    ///
    /// `Unknown` unless a backend can inspect the hardware's control mode. Callers must
    /// treat it as "no information", never as "nobody else".
    fn control_of(&self, channel: &ChannelId) -> (r: Result<ChannelControl, HalError>)
        default_ensures
            r == Ok::<ChannelControl, HalError>(ChannelControl::Unknown),
    {
        Ok(ChannelControl::Unknown)
    }

    /// Hands a channel to the device's own control algorithm.
    ///
    /// Not the same as [`release`](OutputChannel::release): this imposes firmware control on
    /// a channel we may never have held, the recovery for one some other application left in
    /// manual and abandoned.
    fn hand_back_to_firmware(&mut self, channel: &ChannelId) -> (r: Result<(), HalError>)
        ensures
            final(self).log() == old(self).log().push(
                Event::HandBack { channel: channel@, answer: r },
            ),
            final(self).restores() == old(self).restores(),
            final(self).last_read() == old(self).last_read(),
    ;
}

/// The error of a backend that has no way to hand a channel to the firmware.
pub fn cannot_hand_back(channel: &ChannelId) -> (r: HalError)
    ensures
        r matches HalError::Unavailable(s) && s@ == "this backend cannot hand "@ + channel@
            + " back to firmware control"@,
{
    HalError::Unavailable(
        joined(
            joined("this backend cannot hand ", channel.as_str()).as_str(),
            " back to firmware control",
        ),
    )
}

/// A source of sensor readings.
pub trait SensorSource: OutputChannel {
    /// Enumerates what this backend can read.
    fn sensors(&self) -> (r: Result<Vec<SensorInfo>, HalError>);

    /// Reads every sensor for this tick in one batch.
    ///
    /// A sensor that fails to read must be **omitted** from the map rather than given a
    /// placeholder: a missing reading is a fault, a placeholder would look like a real
    /// measurement.
    fn read_all(&mut self) -> (r: Result<OrdMap<SensorId, Scalar>, HalError>)
        ensures
            final(self).log() == old(self).log(),
            final(self).restores() == old(self).restores(),
            final(self).last_read() == match r {
                Ok(m) => Ok::<Map<Text, Scalar>, HalError>(m@),
                Err(e) => Err::<Map<Text, Scalar>, HalError>(e),
            },
    ;
}

/// A complete hardware backend.
pub trait Backend: SensorSource {
    /// Short name for logs and the UI, e.g. `Nuvoton NCT6687D`.
    fn name(&self) -> (r: String);
}

} // verus!
