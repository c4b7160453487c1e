//! Nuvoton NCT67xx hardware monitors.
//!
//! Split into two halves: **decoding**, the functions that turn raw bytes into physical
//! values, and **access**, the port requests that reach a register.
//!
//! # Register access
//!
//! The hardware monitor is a logical device behind the Super I/O's configuration window. Its
//! base address exposes an index port at `base + 5` and a data port at `base + 6`. Registers
//! are 16-bit: the high byte selects a bank (written through the bank-select register `0x4E`),
//! the low byte is the index.
use crate::lpc::{select_logical_device, Request, BASE_ADDRESS_REGISTER, DEVICE_SELECT_REGISTER};
use crate::scalar::{whole, Scalar};
use crate::text::{decimal, digits, joined, Text};
use vstd::prelude::*;

verus! {

/// Logical device number of the hardware monitor on Nuvoton Super I/O chips.
pub const LD_HARDWARE_MONITOR: u8 = 0x0B;

/// Index that selects which bank subsequent accesses address.
pub const BANK_SELECT: u8 = 0x4E;

/// Fan tachometers. Word-sized, big-endian, already in RPM.
///
/// Note the gap: the seventh is `0x4CE`, **not** `0x4CC`. `0x4CC` is not a tachometer and
/// reading it as one produces a confident, nonsensical RPM.
pub const REG_FAN: [u16; 7] = [0x4C0, 0x4C2, 0x4C4, 0x4C6, 0x4C8, 0x4CA, 0x4CE];

/// PWM duty, one byte each, 0–255.
pub const REG_PWM: [u16; 7] = [0x001, 0x003, 0x011, 0x013, 0x015, 0x017, 0x019];

// --- Models --------------------------------------------------------------------------------------

/// A recognised chip.
#[derive(Debug, Clone, Copy, PartialEq, Eq, Structural)]
pub enum Model {
    Nct6791d,
    Nct6792d,
    Nct6793d,
    Nct6795d,
    Nct6796d,
    Nct6797d,
    Nct6798d,
    Nct6799d,
}

impl Model {
    /// The lowercase key that sensor ids are built from.
    pub open spec fn key_said(self) -> Text {
        match self {
            Model::Nct6791d => "nct6791d"@,
            Model::Nct6792d => "nct6792d"@,
            Model::Nct6793d => "nct6793d"@,
            Model::Nct6795d => "nct6795d"@,
            Model::Nct6796d => "nct6796d"@,
            Model::Nct6797d => "nct6797d"@,
            Model::Nct6798d => "nct6798d"@,
            Model::Nct6799d => "nct6799d"@,
        }
    }

    /// What a chip is called.
    pub open spec fn name_said(self) -> Text {
        match self {
            Model::Nct6791d => "Nuvoton NCT6791D"@,
            Model::Nct6792d => "Nuvoton NCT6792D"@,
            Model::Nct6793d => "Nuvoton NCT6793D"@,
            Model::Nct6795d => "Nuvoton NCT6795D"@,
            Model::Nct6796d => "Nuvoton NCT6796D"@,
            Model::Nct6797d => "Nuvoton NCT6797D"@,
            Model::Nct6798d => "Nuvoton NCT6798D"@,
            Model::Nct6799d => "Nuvoton NCT6799D"@,
        }
    }

    /// The lowercase key that sensor ids are built from. Stable across releases.
    pub fn key(self) -> (r: &'static str)
        ensures
            r@ == self.key_said(),
    {
        match self {
            Model::Nct6791d => "nct6791d",
            Model::Nct6792d => "nct6792d",
            Model::Nct6793d => "nct6793d",
            Model::Nct6795d => "nct6795d",
            Model::Nct6796d => "nct6796d",
            Model::Nct6797d => "nct6797d",
            Model::Nct6798d => "nct6798d",
            Model::Nct6799d => "nct6799d",
        }
    }

    /// What this chip is called.
    pub fn name(self) -> (r: &'static str)
        ensures
            r@ == self.name_said(),
    {
        match self {
            Model::Nct6791d => "Nuvoton NCT6791D",
            Model::Nct6792d => "Nuvoton NCT6792D",
            Model::Nct6793d => "Nuvoton NCT6793D",
            Model::Nct6795d => "Nuvoton NCT6795D",
            Model::Nct6796d => "Nuvoton NCT6796D",
            Model::Nct6797d => "Nuvoton NCT6797D",
            Model::Nct6798d => "Nuvoton NCT6798D",
            Model::Nct6799d => "Nuvoton NCT6799D",
        }
    }
}

/// The chip that an identifier means: the model stands in the upper bits and a variant in the
/// low nibble.
pub open spec fn model_of(chip_id: u16) -> Option<Model> {
    let model = chip_id - chip_id % 16;
    if model == 0xC800 {
        Some(Model::Nct6791d)
    } else if model == 0xC910 {
        Some(Model::Nct6792d)
    } else if model == 0xD120 {
        Some(Model::Nct6793d)
    } else if model == 0xD350 {
        Some(Model::Nct6795d)
    } else if model == 0xD420 {
        // The low nibble separates two different parts sharing a prefix.
        if chip_id % 16 >= 8 {
            Some(Model::Nct6798d)
        } else {
            Some(Model::Nct6796d)
        }
    } else if model == 0xD450 {
        Some(Model::Nct6797d)
    } else if model == 0xD800 {
        Some(Model::Nct6799d)
    } else {
        None
    }
}

/// Identifies a chip from its ID register.
///
/// Nothing for anything unrecognised: an unknown chip with a guessed register map produces
/// plausible, wrong readings.
pub fn identify(chip_id: u16) -> (r: Option<Model>)
    ensures
        r == model_of(chip_id),
{
    let model: u16 = chip_id - chip_id % 16;
    match model {
        0xC800 => Some(Model::Nct6791d),
        0xC910 => Some(Model::Nct6792d),
        0xD120 => Some(Model::Nct6793d),
        0xD350 => Some(Model::Nct6795d),
        0xD420 => if chip_id % 16 >= 8 {
            Some(Model::Nct6798d)
        } else {
            Some(Model::Nct6796d)
        },
        0xD450 => Some(Model::Nct6797d),
        0xD800 => Some(Model::Nct6799d),
        _ => None,
    }
}

// --- Decoding ------------------------------------------------------------------------------------

/// Highest RPM we will believe from a tachometer.
///
/// Well above any real PC fan or pump, and well below the values an unconnected or
/// non-tachometer register produces. A reading past this is *absent* rather than clamped.
pub const MAX_PLAUSIBLE_RPM: u16 = 30_000;

/// Decodes a tachometer.
///
/// `0` is a real, meaningful reading — an empty header or a stopped fan — and is passed
/// through. Only physically impossible values are absent.
pub fn decode_rpm(raw: u16) -> (r: Option<Scalar>)
    ensures
        r == if raw <= MAX_PLAUSIBLE_RPM {
            Some(whole(raw as nat))
        } else {
            None
        },
{
    if raw <= MAX_PLAUSIBLE_RPM {
        Some(Scalar::whole(raw as u64))
    } else {
        None
    }
}

/// The percentage that a duty byte means.
pub open spec fn duty_of(raw: u8) -> Scalar {
    whole(raw as nat).over(whole(255)).times(whole(100))
}

/// Decodes a PWM duty register into percent.
pub fn decode_pwm(raw: u8) -> (r: Scalar)
    ensures
        r == duty_of(raw),
{
    Scalar::whole(raw as u64).div(Scalar::whole(255)).mul(Scalar::whole(100))
}

/// The greatest number up to `n` that a scalar reaches; zero where it reaches none.
pub open spec fn reached(x: Scalar, n: nat) -> nat
    decreases n,
{
    if n == 0 || whole(n).at_most(x) {
        n
    } else {
        reached(x, (n - 1) as nat)
    }
}

/// The byte nearest to a percentage; what is out of range is the nearest end.
pub open spec fn byte_of(percent: Scalar) -> nat {
    reached(
        percent.confined(whole(0), whole(100)).over(whole(100)).times(whole(255)).rounded(),
        255,
    )
}

/// Encodes a percentage as a PWM duty register.
pub fn encode_pwm(percent: Scalar) -> (r: u8)
    ensures
        r == byte_of(percent),
{
    let full = Scalar::whole(100);
    let x = percent.clamp(Scalar::whole(0), full).div(full).mul(Scalar::whole(255)).round();
    let mut n: u8 = 255;
    while n > 0 && !Scalar::whole(n as u64).le(x)
        invariant
            x == percent.confined(whole(0), whole(100)).over(whole(100)).times(
                whole(255),
            ).rounded(),
            byte_of(percent) == reached(x, n as nat),
        decreases n,
    {
        n -= 1;
    }
    n
}

/// Whether a temperature in °C is one we will believe. Outside the window the input is
/// unconnected or the register is not a temperature.
pub open spec fn believable(celsius: Scalar) -> bool {
    whole(40).negated().at_most(celsius) && celsius.at_most(whole(150))
}

fn plausible_temp(celsius: Scalar) -> (r: Option<Scalar>)
    ensures
        r == if believable(celsius) {
            Some(celsius)
        } else {
            None
        },
{
    if Scalar::whole(40).negate().le(celsius) && celsius.le(Scalar::whole(150)) {
        Some(celsius)
    } else {
        None
    }
}

/// A whole number with its sign.
pub open spec fn signed_whole(n: int) -> Scalar {
    if n < 0 {
        whole((-n) as nat).negated()
    } else {
        whole(n as nat)
    }
}

/// What a word means with a sign.
pub open spec fn word_value(raw: u16) -> int {
    if raw >= 0x8000 {
        raw - 0x1_0000
    } else {
        raw as int
    }
}

/// What a byte means with a sign.
pub open spec fn byte_value(raw: u8) -> int {
    if raw >= 0x80 {
        raw - 0x100
    } else {
        raw as int
    }
}

/// The temperature in °C that a word holds: whole degrees in the high byte, a fraction in the
/// low one.
pub open spec fn word_celsius(raw: u16) -> Scalar {
    signed_whole(word_value(raw)).over(whole(256))
}

/// A reading, if it is believable.
pub open spec fn if_believable(celsius: Scalar) -> Option<Scalar> {
    if believable(celsius) {
        Some(celsius)
    } else {
        None
    }
}

/// Decodes a word-sized temperature: high byte whole °C, low byte a 1/256 fraction.
///
/// Signed, so sub-zero readings survive rather than wrapping to something plausible.
pub fn decode_temp_word(raw: u16) -> (r: Option<Scalar>)
    ensures
        r == if_believable(word_celsius(raw)),
{
    let value = if raw >= 0x8000 {
        Scalar::whole(0x1_0000 - raw as u64).negate()
    } else {
        Scalar::whole(raw as u64)
    };
    plausible_temp(value.div(Scalar::whole(256)))
}

/// Decodes a byte-sized temperature: whole °C, signed.
pub fn decode_temp_byte(raw: u8) -> (r: Option<Scalar>)
    ensures
        r == if_believable(signed_whole(byte_value(raw))),
{
    let value = if raw >= 0x80 {
        Scalar::whole(0x100 - raw as u64).negate()
    } else {
        Scalar::whole(raw as u64)
    };
    plausible_temp(value)
}

/// The temperature in °C that a TSI word holds: eighths of a degree in the upper eleven bits.
pub open spec fn tsi_celsius(raw: u16) -> Scalar {
    whole((raw / 32) as nat).over(whole(8))
}

/// Decodes a TSI temperature. Zero means that nothing is there.
pub fn decode_tsi_temp(raw: u16) -> (r: Option<Scalar>)
    ensures
        r == if raw == 0 {
            None
        } else {
            if_believable(tsi_celsius(raw))
        },
{
    if raw == 0 {
        None
    } else {
        plausible_temp(Scalar::whole((raw / 32) as u64).div(Scalar::whole(8)))
    }
}

/// How a temperature register holds its reading.
#[derive(Debug, Clone, Copy, PartialEq, Eq, Structural)]
pub enum TempEncoding {
    SignedByte,
    SignedWord,
    Tsi,
}

/// What a raw reading means in an encoding.
pub open spec fn temperature_in(encoding: TempEncoding, raw: u16) -> Option<Scalar> {
    match encoding {
        TempEncoding::SignedByte => if_believable(signed_whole(byte_value((raw % 256) as u8))),
        TempEncoding::SignedWord => if_believable(word_celsius(raw)),
        TempEncoding::Tsi => if raw == 0 {
            None
        } else {
            if_believable(tsi_celsius(raw))
        },
    }
}

/// Decodes a temperature.
pub fn decode_temp(encoding: TempEncoding, raw: u16) -> (r: Option<Scalar>)
    ensures
        r == temperature_in(encoding, raw),
{
    match encoding {
        TempEncoding::SignedByte => decode_temp_byte((raw % 256) as u8),
        TempEncoding::SignedWord => decode_temp_word(raw),
        TempEncoding::Tsi => decode_tsi_temp(raw),
    }
}

/// A temperature input exposed to the engine.
///
/// Only the chip's **fixed-function** thermistor inputs are here. The monitored-source slots
/// are omitted: their id would be stable while their *meaning* was not.
#[derive(Debug, Clone, Copy, PartialEq, Eq, Structural)]
pub enum TempInput {
    Systin,
    Cputin,
}

impl TempInput {
    /// Stable id fragment.
    pub open spec fn key_said(self) -> Text {
        match self {
            TempInput::Systin => "systin"@,
            TempInput::Cputin => "cputin"@,
        }
    }

    /// What an input is called.
    pub open spec fn label_said(self) -> Text {
        match self {
            TempInput::Systin => "System (SYSTIN)"@,
            TempInput::Cputin => "CPU socket (CPUTIN)"@,
        }
    }

    /// Where an input is read.
    pub open spec fn register_said(self) -> u16 {
        match self {
            TempInput::Systin => 0x027,
            TempInput::Cputin => 0x150,
        }
    }

    /// How an input holds its reading.
    pub open spec fn encoding_said(self) -> TempEncoding {
        match self {
            TempInput::Systin => TempEncoding::SignedByte,
            TempInput::Cputin => TempEncoding::SignedWord,
        }
    }

    /// Stable id fragment. Never an index — a profile references this.
    pub fn key(self) -> (r: &'static str)
        ensures
            r@ == self.key_said(),
    {
        match self {
            TempInput::Systin => "systin",
            TempInput::Cputin => "cputin",
        }
    }

    /// What this input is called.
    pub fn label(self) -> (r: &'static str)
        ensures
            r@ == self.label_said(),
    {
        match self {
            TempInput::Systin => "System (SYSTIN)",
            TempInput::Cputin => "CPU socket (CPUTIN)",
        }
    }

    /// Where this input is read.
    pub fn register(self) -> (r: u16)
        ensures
            r == self.register_said(),
    {
        match self {
            TempInput::Systin => 0x027,
            TempInput::Cputin => 0x150,
        }
    }

    /// How this input holds its reading: word-sized registers carry a fraction in the low
    /// byte; byte-sized ones do not.
    pub fn encoding(self) -> (r: TempEncoding)
        ensures
            r == self.encoding_said(),
    {
        match self {
            TempInput::Systin => TempEncoding::SignedByte,
            TempInput::Cputin => TempEncoding::SignedWord,
        }
    }
}

/// The temperature inputs, in the order in which they are listed.
pub const TEMP_INPUTS: [TempInput; 2] = [TempInput::Systin, TempInput::Cputin];

/// What a temperature source that a channel's curve may follow is called, if that is known.
/// Only the low five bits of a select byte name a source; what is not known is not invented.
pub open spec fn source_label(select: u8) -> Option<Text> {
    let source = select % 32;
    if source == 1 {
        Some("SYSTIN"@)
    } else if source == 2 {
        Some("CPUTIN"@)
    } else if source == 3 {
        Some("AUXTIN0"@)
    } else if source == 28 {
        Some("PECI Agent 0 Calibration"@)
    } else {
        None
    }
}

/// What a temperature source is called, if that is known.
pub fn temp_source_label(select: u8) -> (r: Option<&'static str>)
    ensures
        match r {
            Some(label) => source_label(select) == Some(label@),
            None => source_label(select) is None,
        },
{
    let source: u8 = select % 32;
    match source {
        1 => Some("SYSTIN"),
        2 => Some("CPUTIN"),
        3 => Some("AUXTIN0"),
        28 => Some("PECI Agent 0 Calibration"),
        _ => None,
    }
}

/// The exposed input that a temperature source is, if it is one.
pub fn temp_input_for_source(select: u8) -> (r: Option<TempInput>)
    ensures
        r == if select % 32 == 1 {
            Some(TempInput::Systin)
        } else if select % 32 == 2 {
            Some(TempInput::Cputin)
        } else {
            None
        },
{
    let source: u8 = select % 32;
    match source {
        1 => Some(TempInput::Systin),
        2 => Some(TempInput::Cputin),
        _ => None,
    }
}

// --- Modes ---------------------------------------------------------------------------------------

/// Who decides a channel's duty, as its mode register says.
#[derive(Debug, Clone, Copy, PartialEq, Eq, Structural)]
pub enum FanMode {
    /// Software writes the duty.
    Manual,
    /// The board's own curve.
    SmartFanIv,
    /// Some other mode of the chip, kept as it is.
    Other(u8),
}

/// The mode that a register byte says: its high nibble.
pub open spec fn mode_said(register: u8) -> FanMode {
    let mode = register / 16;
    if mode == 0 {
        FanMode::Manual
    } else if mode == 4 {
        FanMode::SmartFanIv
    } else {
        FanMode::Other(mode as u8)
    }
}

impl FanMode {
    /// The nibble of a mode.
    pub open spec fn nibble(self) -> u8 {
        match self {
            FanMode::Manual => 0,
            FanMode::SmartFanIv => 4,
            FanMode::Other(mode) => mode,
        }
    }

    /// Whether the device's own algorithm decides.
    pub fn is_firmware_controlled(self) -> (r: bool)
        ensures
            r == (self.nibble() != 0),
    {
        match self {
            FanMode::Manual => false,
            FanMode::SmartFanIv => true,
            FanMode::Other(mode) => mode != 0,
        }
    }
}

/// A register byte with another mode: the tolerance nibble stays.
pub open spec fn remoded(register: u8, mode: FanMode) -> int {
    (mode.nibble() % 16) * 16 + register % 16
}

/// Reads the mode out of a register byte.
pub fn mode_from_register(register: u8) -> (r: FanMode)
    ensures
        r == mode_said(register),
{
    let mode: u8 = register / 16;
    match mode {
        0 => FanMode::Manual,
        4 => FanMode::SmartFanIv,
        _ => FanMode::Other(mode),
    }
}

/// Puts a mode into a register byte, leaving the firmware's tolerance nibble alone.
pub fn mode_into_register(register: u8, mode: FanMode) -> (r: u8)
    ensures
        r == remoded(register, mode),
{
    let nibble: u8 = match mode {
        FanMode::Manual => 0,
        FanMode::SmartFanIv => 4,
        FanMode::Other(mode) => mode % 16,
    };
    nibble * 16 + register % 16
}

/// No mode loses information: putting back the mode that was read gives the byte that was
/// read, documented or not; and a change of mode keeps the tolerance nibble.
pub proof fn modes_round_trip(register: u8, mode: FanMode)
    ensures
        remoded(register, mode_said(register)) == register,
        remoded(register, mode) % 16 == register % 16,
        0 <= remoded(register, mode) < 256,
        remoded(remoded(register, mode) as u8, mode_said(register)) == register,
{
}

// --- Access --------------------------------------------------------------------------------------

/// A hardware monitor we can read: what it is, and where.
#[derive(Debug, Clone, Copy)]
pub struct Nct6775 {
    model: Model,
    base: u16,
}

/// The low three bits of a base register are not part of the address.
pub open spec fn address_of(base_register: u16) -> int {
    base_register - base_register % 8
}

impl Nct6775 {
    #[verifier::type_invariant]
    spec fn wf(self) -> bool {
        0 < self.base <= 0xFFF8
    }

    /// What the monitor is.
    pub closed spec fn model_said(self) -> Model {
        self.model
    }

    /// Where the monitor is.
    pub closed spec fn base_said(self) -> u16 {
        self.base
    }

    /// The requests that find where the monitor is, in an already unlocked Super I/O: its
    /// logical device is selected, and its base register read.
    pub fn locate() -> (r: Vec<Request>)
        ensures
            r@ == seq![
                Request::SuperIoOut { register: DEVICE_SELECT_REGISTER, value: LD_HARDWARE_MONITOR },
                Request::SuperIoWord { register: BASE_ADDRESS_REGISTER },
            ],
    {
        let r = vec![
            select_logical_device(LD_HARDWARE_MONITOR),
            Request::SuperIoWord { register: BASE_ADDRESS_REGISTER },
        ];
        assert(r@ =~= seq![
            Request::SuperIoOut { register: DEVICE_SELECT_REGISTER, value: LD_HARDWARE_MONITOR },
            Request::SuperIoWord { register: BASE_ADDRESS_REGISTER },
        ]);
        r
    }

    /// The monitor behind an unlocked Super I/O, given its chip identifier and its base
    /// register. Nothing where the chip is not recognised, or where the monitor is not mapped:
    /// it is then disabled in firmware, which is not an error.
    pub fn probe(chip_id: u16, base_register: u16) -> (r: Option<Nct6775>)
        ensures
            match r {
                Some(chip) => model_of(chip_id) == Some(chip.model_said()) && chip.base_said()
                    == address_of(base_register) && address_of(base_register) != 0,
                None => model_of(chip_id) is None || address_of(base_register) == 0,
            },
    {
        let model = match identify(chip_id) {
            Some(model) => model,
            None => {
                return None;
            },
        };
        let base: u16 = base_register - base_register % 8;
        if base == 0 {
            return None;
        }
        Some(Nct6775 { model, base })
    }

    /// What the monitor is.
    pub fn model(&self) -> (r: Model)
        ensures
            r == self.model_said(),
    {
        self.model
    }

    /// Where the monitor is.
    pub fn base(&self) -> (r: u16)
        ensures
            r == self.base_said(),
    {
        self.base
    }

    /// The index port.
    pub fn addr_port(&self) -> (r: u16)
        ensures
            r == self.base_said() + 5,
    {
        proof {
            use_type_invariant(self);
        }
        self.base + 5
    }

    /// The data port.
    pub fn data_port(&self) -> (r: u16)
        ensures
            r == self.base_said() + 6,
    {
        proof {
            use_type_invariant(self);
        }
        self.base + 6
    }

    /// The requests that select a bank.
    pub fn set_bank(&self, bank: u8) -> (r: Vec<Request>)
        ensures
            r@ == bank_selected(self.base_said(), bank),
    {
        proof {
            use_type_invariant(self);
        }
        let r = vec![
            Request::PortOut { port: self.addr_port(), value: BANK_SELECT },
            Request::PortOut { port: self.data_port(), value: bank },
        ];
        assert(r@ =~= bank_selected(self.base, bank));
        r
    }

    /// The requests that read one 8-bit register; the last is answered with it.
    pub fn read_byte(&self, register: u16) -> (r: Vec<Request>)
        ensures
            r@ == byte_read(self.base_said(), register),
    {
        proof {
            use_type_invariant(self);
        }
        let mut r = self.set_bank((register / 256) as u8);
        r.push(Request::PortOut { port: self.addr_port(), value: (register % 256) as u8 });
        r.push(Request::PortIn { port: self.data_port() });
        assert(r@ =~= byte_read(self.base, register));
        r
    }

    /// The requests that read one 16-bit register as a big-endian pair; the fourth and the
    /// last are answered with its bytes.
    pub fn read_word(&self, register: u16) -> (r: Vec<Request>)
        ensures
            r@ == word_read(self.base_said(), register),
    {
        proof {
            use_type_invariant(self);
        }
        let mut r = self.read_byte(register);
        let low: u8 = (register % 256) as u8;
        let next: u8 = if low == 0xFF {
            0
        } else {
            low + 1
        };
        r.push(Request::PortOut { port: self.addr_port(), value: next });
        r.push(Request::PortIn { port: self.data_port() });
        assert(r@ =~= word_read(self.base, register));
        r
    }

    /// The requests that write one 8-bit register.
    pub fn write_byte(&self, register: u16, value: u8) -> (r: Vec<Request>)
        ensures
            r@ == byte_written(self.base_said(), register, value),
    {
        proof {
            use_type_invariant(self);
        }
        let mut r = self.set_bank((register / 256) as u8);
        r.push(Request::PortOut { port: self.addr_port(), value: (register % 256) as u8 });
        r.push(Request::PortOut { port: self.data_port(), value });
        assert(r@ =~= byte_written(self.base, register, value));
        r
    }

    /// Sensor id for a tachometer, e.g. `nct6798d/fan/1`.
    pub fn fan_id(&self, index: usize) -> (r: String)
        ensures
            r@ == id_of(self.model_said(), "/fan/"@, digits(index as nat)),
    {
        self.id("/fan/", decimal(index as u64).as_str())
    }

    /// Sensor id for a PWM duty readback, e.g. `nct6798d/pwm/4`.
    pub fn pwm_id(&self, index: usize) -> (r: String)
        ensures
            r@ == id_of(self.model_said(), "/pwm/"@, digits(index as nat)),
    {
        self.id("/pwm/", decimal(index as u64).as_str())
    }

    /// Sensor id for a temperature, e.g. `nct6798d/temp/cputin`.
    ///
    /// Keyed by the input's fixed function, never by position, so the id keeps meaning the
    /// same thing across reboots and re-enumeration.
    pub fn temp_id(&self, input: TempInput) -> (r: String)
        ensures
            r@ == id_of(self.model_said(), "/temp/"@, input.key_said()),
    {
        self.id("/temp/", input.key())
    }

    fn id(&self, kind: &str, which: &str) -> (r: String)
        ensures
            r@ == id_of(self.model_said(), kind@, which@),
    {
        joined(joined(self.model.key(), kind).as_str(), which)
    }
}

/// A sensor id.
pub open spec fn id_of(model: Model, kind: Text, which: Text) -> Text {
    model.key_said() + kind + which
}

/// The big-endian word of two bytes.
pub fn word_of(high: u8, low: u8) -> (r: u16)
    ensures
        r == high * 256 + low,
{
    high as u16 * 256 + low as u16
}

/// The requests that select a bank.
pub open spec fn bank_selected(base: u16, bank: u8) -> Seq<Request> {
    seq![
        Request::PortOut { port: (base + 5) as u16, value: BANK_SELECT },
        Request::PortOut { port: (base + 6) as u16, value: bank },
    ]
}

/// The requests that read a byte.
pub open spec fn byte_read(base: u16, register: u16) -> Seq<Request> {
    bank_selected(base, (register / 256) as u8).push(
        Request::PortOut { port: (base + 5) as u16, value: (register % 256) as u8 },
    ).push(Request::PortIn { port: (base + 6) as u16 })
}

/// The requests that read a word.
pub open spec fn word_read(base: u16, register: u16) -> Seq<Request> {
    byte_read(base, register).push(
        Request::PortOut { port: (base + 5) as u16, value: ((register % 256 + 1) % 256) as u8 },
    ).push(Request::PortIn { port: (base + 6) as u16 })
}

/// The requests that write a byte.
pub open spec fn byte_written(base: u16, register: u16, value: u8) -> Seq<Request> {
    bank_selected(base, (register / 256) as u8).push(
        Request::PortOut { port: (base + 5) as u16, value: (register % 256) as u8 },
    ).push(Request::PortOut { port: (base + 6) as u16, value })
}

// --- The monitor's side --------------------------------------------------------------------------

/// What a hardware monitor holds: which register its ports address, and its registers.
#[verifier::ext_equal]
pub struct Monitor {
    pub index: u8,
    pub bank: u8,
    pub registers: Map<int, u8>,
}

impl Monitor {
    /// The register that the data port addresses.
    pub open spec fn addressed(self) -> int {
        self.bank * 256 + self.index
    }

    /// What a request does to a monitor at a base address.
    pub open spec fn after(self, base: u16, request: Request) -> Monitor {
        match request {
            Request::PortOut { port, value } => if port == base + 5 {
                Monitor { index: value, ..self }
            } else if port == base + 6 {
                if self.index == BANK_SELECT {
                    Monitor { bank: value, ..self }
                } else {
                    Monitor { registers: self.registers.insert(self.addressed(), value), ..self }
                }
            } else {
                self
            },
            _ => self,
        }
    }

    /// What the first `n` requests do.
    pub open spec fn after_all(self, base: u16, requests: Seq<Request>, n: nat) -> Monitor
        decreases n,
    {
        if n == 0 {
            self
        } else {
            self.after_all(base, requests, (n - 1) as nat).after(base, requests[n - 1])
        }
    }

    /// What the data port answers.
    pub open spec fn answer(self) -> u8 {
        if self.index == BANK_SELECT {
            self.bank
        } else {
            self.registers[self.addressed()]
        }
    }
}

/// The requests that read a register address that register when the data port is read, and
/// change none; those that write one change that register and no other. (The bank selector
/// itself, which every bank has at `0x4E`, is not a register that is read this way.)
pub proof fn requests_reach_their_register(m: Monitor, base: u16, register: u16, value: u8)
    requires
        base <= 0xFFF8,
        register % 256 != BANK_SELECT,
    ensures
        ({
            let at_read = m.after_all(base, byte_read(base, register), 3);
            &&& at_read.answer() == m.registers[register as int]
            &&& at_read.registers == m.registers
        }),
        ({
            let written = m.after_all(base, byte_written(base, register, value), 4);
            written.registers == m.registers.insert(register as int, value)
        }),
{
    let read = byte_read(base, register);
    let write = byte_written(base, register, value);
    reveal_with_fuel(Monitor::after_all, 5);
    assert(register / 256 * 256 + register % 256 == register);
    assert(read[0] == (Request::PortOut { port: (base + 5) as u16, value: BANK_SELECT }));
    assert(read[1] == (Request::PortOut { port: (base + 6) as u16, value: (register / 256) as u8 }));
    assert(read[2] == (Request::PortOut { port: (base + 5) as u16, value: (register % 256) as u8 }));
    assert(write[0] == read[0]);
    assert(write[1] == read[1]);
    assert(write[2] == read[2]);
    assert(write[3] == (Request::PortOut { port: (base + 6) as u16, value }));
    let m3 = m.after_all(base, read, 3);
    assert(m3.addressed() == register);
    assert(m.after_all(base, write, 3) == m3);
}

/// The requests that read a word address its two registers, high byte first, and change none.
pub proof fn words_are_read_high_byte_first(m: Monitor, base: u16, register: u16)
    requires
        base <= 0xFFF8,
        register % 256 != BANK_SELECT,
        register % 256 + 1 < 256,
        register % 256 + 1 != BANK_SELECT,
    ensures
        ({
            let high = m.after_all(base, word_read(base, register), 3);
            let low = m.after_all(base, word_read(base, register), 5);
            &&& high.answer() == m.registers[register as int]
            &&& low.answer() == m.registers[register + 1]
            &&& low.registers == m.registers
        }),
{
    let read = byte_read(base, register);
    let word = word_read(base, register);
    reveal_with_fuel(Monitor::after_all, 6);
    requests_reach_their_register(m, base, register, 0);
    assert(word[0] == read[0]);
    assert(word[1] == read[1]);
    assert(word[2] == read[2]);
    assert(word[3] == (Request::PortIn { port: (base + 6) as u16 }));
    assert(word[4] == (Request::PortOut {
        port: (base + 5) as u16,
        value: (register % 256 + 1) as u8,
    }));
    assert(register / 256 * 256 + register % 256 == register);
    assert(m.after_all(base, word, 3) == m.after_all(base, read, 3));
}

} // verus!
