//! What talking to PawnIO can come to.
//!
//! PawnIO is a signed, scriptable kernel driver that is installed by the user. It has to be
//! possible to start, explain what is missing and run without it, so everything that can go
//! wrong is a value.
use crate::text::{joined, Text};
use vstd::arithmetic::power::pow;
use vstd::prelude::*;

verus! {

/// Everything that can go wrong talking to PawnIO.
#[derive(Debug, Clone, PartialEq, Eq)]
pub enum PawnIoError {
    NotInstalled,
    AccessDenied,
    MissingExport(String),
    Call { call: String, hresult: i32 },
    ModuleNotFound { module: String, searched: String },
    ModuleRejected { module: String },
    InvalidName(String),
}

/// A hexadecimal digit.
pub open spec fn hex_digit(d: int) -> char {
    if d < 10 {
        ('0' as int + d) as char
    } else {
        ('A' as int + d - 10) as char
    }
}

/// The last `n` hexadecimal digits of a number.
pub open spec fn hex_digits(v: nat, n: nat) -> Text
    decreases n,
{
    if n == 0 {
        Seq::empty()
    } else {
        hex_digits(v / 16, (n - 1) as nat).push(hex_digit((v % 16) as int))
    }
}

/// A result code as it is written: what its 32 bits are without a sign.
pub open spec fn code_bits(hresult: i32) -> nat {
    if hresult < 0 {
        (hresult + 0x1_0000_0000) as nat
    } else {
        hresult as nat
    }
}

fn hex_char(d: u32) -> (r: char)
    requires
        d < 16,
    ensures
        r == hex_digit(d as int),
{
    if d < 10 {
        (48 + (d as u8)) as char
    } else {
        (65 + (d as u8 - 10)) as char
    }
}

fn hex(v: u32, n: u32) -> (r: String)
    ensures
        r@ == hex_digits(v as nat, n as nat),
    decreases n,
{
    if n == 0 {
        let r = String::new();
        assert(r@ =~= Seq::empty());
        r
    } else {
        let mut r = hex(v / 16, n - 1);
        r.push(hex_char(v % 16));
        r
    }
}

/// What a hexadecimal digit counts.
pub open spec fn hex_worth(c: char) -> int {
    if c as int <= 57 {
        c as int - 48
    } else {
        c as int - 55
    }
}

/// The number that hexadecimal digits write.
pub open spec fn hex_number(s: Text) -> int
    decreases s.len(),
{
    if s.len() == 0 {
        0
    } else {
        16 * hex_number(s.drop_last()) + hex_worth(s.last())
    }
}

/// A number that has no more hexadecimal digits than are written is read back from them.
pub proof fn hexadecimal_digits_are_read_back(v: nat, n: nat)
    requires
        v < pow(16, n),
    ensures
        hex_digits(v, n).len() == n,
        hex_number(hex_digits(v, n)) == v,
    decreases n,
{
    reveal(pow);
    if n > 0 {
        let m = (n - 1) as nat;
        assert(pow(16, n) == 16 * pow(16, m));
        hexadecimal_digits_are_read_back(v / 16, m);
        let s = hex_digits(v, n);
        assert(s.drop_last() =~= hex_digits(v / 16, m));
        let d = (v % 16) as int;
        assert(s.last() == hex_digit(d));
        assert(hex_worth(hex_digit(d)) == d);
    }
}

/// What an error says to a person.
pub open spec fn pawnio_message(e: PawnIoError) -> Text {
    match e {
        PawnIoError::NotInstalled => "PawnIO is not installed. OpenFan needs it for hardware access; install it from https://pawnio.eu and restart."@,
        PawnIoError::AccessDenied => "PawnIO refused access. OpenFan has to run as administrator to reach hardware."@,
        PawnIoError::MissingExport(name) => "PawnIOLib is missing the "@ + name@
            + " export; the installed version may be too old"@,
        PawnIoError::Call { call, hresult } => "PawnIO call "@ + call@ + " failed (HRESULT 0x"@
            + hex_digits(code_bits(hresult), 8) + ")"@,
        PawnIoError::ModuleNotFound { module, searched } => "PawnIO module "@ + module@
            + " was not found. Searched: "@ + searched@,
        PawnIoError::ModuleRejected { module } => "PawnIO refused to load module "@ + module@
            + ". The signed edition only loads modules signed by the PawnIO project; either use an official module or install the Unrestricted edition."@,
        PawnIoError::InvalidName(name) => "function name "@ + crate::text::quoted(name@)
            + " is not valid for FFI"@,
    }
}

fn code_of(hresult: i32) -> (r: u32)
    ensures
        r == code_bits(hresult),
{
    if hresult < 0 {
        (hresult as i64 + 0x1_0000_0000) as u32
    } else {
        hresult as u32
    }
}

impl PawnIoError {
    /// What this says to a person.
    pub fn message(&self) -> (r: String)
        ensures
            r@ == pawnio_message(*self),
    {
        match self {
            PawnIoError::NotInstalled => "PawnIO is not installed. OpenFan needs it for hardware access; install it from https://pawnio.eu and restart.".to_owned(),
            PawnIoError::AccessDenied => "PawnIO refused access. OpenFan has to run as administrator to reach hardware.".to_owned(),
            PawnIoError::MissingExport(name) => joined(
                joined("PawnIOLib is missing the ", name.as_str()).as_str(),
                " export; the installed version may be too old",
            ),
            PawnIoError::Call { call, hresult } => joined(
                joined(
                    joined(
                        joined("PawnIO call ", call.as_str()).as_str(),
                        " failed (HRESULT 0x",
                    ).as_str(),
                    hex(code_of(*hresult), 8).as_str(),
                ).as_str(),
                ")",
            ),
            PawnIoError::ModuleNotFound { module, searched } => joined(
                joined(
                    joined("PawnIO module ", module.as_str()).as_str(),
                    " was not found. Searched: ",
                ).as_str(),
                searched.as_str(),
            ),
            PawnIoError::ModuleRejected { module } => joined(
                joined("PawnIO refused to load module ", module.as_str()).as_str(),
                ". The signed edition only loads modules signed by the PawnIO project; either use an official module or install the Unrestricted edition.",
            ),
            PawnIoError::InvalidName(name) => joined(
                joined("function name ", crate::text::quote(name.as_str()).as_str()).as_str(),
                " is not valid for FFI",
            ),
        }
    }
}

/// Turns a result code into a result: a negative one is a failure, and anything else a
/// success.
pub fn check(call: &str, hr: i32) -> (r: Result<(), PawnIoError>)
    ensures
        match r {
            Ok(_) => hr >= 0,
            Err(PawnIoError::Call { call: c, hresult }) => hr < 0 && c@ == call@ && hresult == hr,
            Err(_) => false,
        },
{
    if hr >= 0 {
        Ok(())
    } else {
        Err(PawnIoError::Call { call: call.to_owned(), hresult: hr })
    }
}

/// Whether PawnIO is present on this machine, given what loading its library came to.
pub fn is_available(loaded: &Result<(), PawnIoError>) -> (r: bool)
    ensures
        r == (*loaded is Ok),
{
    loaded.is_ok()
}

/// The version of the library as major, minor and patch, given what its call came to and the
/// number it wrote.
pub fn library_version(loaded: Result<(), PawnIoError>, hr: i32, raw: u32) -> (r: Result<
    (u16, u8, u8),
    PawnIoError,
>)
    ensures
        match loaded {
            Err(e) => r is Err && r->Err_0 == e,
            Ok(_) => match r {
                Ok(v) => hr >= 0 && v.0 == raw / 0x1_0000 && v.1 == raw / 0x100 % 0x100 && v.2
                    == raw % 0x100,
                Err(PawnIoError::Call { call, hresult }) => hr < 0 && call@ == "pawnio_version"@
                    && hresult == hr,
                Err(_) => false,
            },
        },
{
    if let Err(e) = loaded {
        return Err(e);
    }
    match check("pawnio_version", hr) {
        Ok(_) => Ok(((raw / 0x1_0000) as u16, (raw / 0x100 % 0x100) as u8, (raw % 0x100) as u8)),
        Err(e) => Err(e),
    }
}

/// What loading a module came to, given the result codes of opening an executor and of
/// loading into it.
///
/// The signature case has its own error: it is the failure users hit, and a bare code tells
/// them nothing about what to do next.
pub fn load_module(module: &str, opened: i32, loaded: i32) -> (r: Result<(), PawnIoError>)
    ensures
        match r {
            Ok(_) => opened >= 0 && loaded >= 0,
            Err(PawnIoError::Call { call, hresult }) => opened < 0 && call@ == "pawnio_open"@
                && hresult == opened,
            Err(PawnIoError::ModuleRejected { module: m }) => opened >= 0 && loaded < 0 && m@
                == module@,
            Err(_) => false,
        },
{
    match check("pawnio_open", opened) {
        Ok(_) => if loaded < 0 {
            Err(PawnIoError::ModuleRejected { module: module.to_owned() })
        } else {
            Ok(())
        },
        Err(e) => Err(e),
    }
}

} // verus!
