//! Finding — and switching off — another fan controller's autostart.
//!
//! A rival that is *installed with autostart* but not running right now is invisible to
//! process detection. So autostart is surveyed as its own kind of obstacle — a *future* one.
//!
//! # Nothing here runs on its own
//!
//! [`find`] reads. [`disable`] is only ever asked about one entry a person explicitly pointed
//! at.
//!
//! # Reversible where the platform allows it
//!
//! | Location | What is done | Reversible |
//! | --- | --- | --- |
//! | Scheduled task | disable the task | yes, by re-enabling it |
//! | Startup shortcut | rename it aside | yes, by renaming it back |
//! | `Run` registry value | delete the value | only from what is reported back |
use crate::known::{app_views, known_apps, registry, AppView, KnownApp};
use crate::text::{
    ascii_lowered, chars_of, find_from, first_at, joined, lower_ascii, matches_at, replace,
    replaced, same, sliced, stands_at, text_from, text_of, texts, trim, trimmed, white, Text,
};
use vstd::prelude::*;
use vstd::utf8::{decode_utf8, valid_utf8};

verus! {

/// Where an autostart entry lives.
#[derive(Debug, Clone, PartialEq, Eq)]
pub enum Location {
    /// A value under a `Run` key. `hive` is the printable root, for the interface.
    RunValue { hive: String, subkey: String, value: String },
    /// A task in the Windows scheduler.
    ScheduledTask { name: String },
    /// A shortcut in a Startup folder, and the last part of its path.
    StartupShortcut { path: String, file_name: String },
}

/// A location, as contracts speak of it.
pub enum LocationView {
    RunValue { hive: Text, subkey: Text, value: Text },
    ScheduledTask { name: Text },
    StartupShortcut { path: Text, file_name: Text },
}

impl View for Location {
    type V = LocationView;

    open spec fn view(&self) -> LocationView {
        match *self {
            Location::RunValue { hive, subkey, value } => LocationView::RunValue {
                hive: hive@,
                subkey: subkey@,
                value: value@,
            },
            Location::ScheduledTask { name } => LocationView::ScheduledTask { name: name@ },
            Location::StartupShortcut { path, file_name } => LocationView::StartupShortcut {
                path: path@,
                file_name: file_name@,
            },
        }
    }
}

/// How a location is described to somebody who did not write it.
pub open spec fn described(l: LocationView) -> Text {
    match l {
        LocationView::RunValue { hive, subkey, value } => "a startup entry named \""@ + value
            + "\" in "@ + hive,
        LocationView::ScheduledTask { name } => "a scheduled task named \""@ + name + "\""@,
        LocationView::StartupShortcut { path, file_name } => "a shortcut in your Startup folder ("@
            + file_name + ")"@,
    }
}

fn enclosed(before: &str, middle: &str, after: &str) -> (r: String)
    ensures
        r@ == before@ + middle@ + after@,
{
    joined(joined(before, middle).as_str(), after)
}

impl Location {
    /// The same location again.
    pub fn copy(&self) -> (r: Location)
        ensures
            r@ == self@,
    {
        match self {
            Location::RunValue { hive, subkey, value } => Location::RunValue {
                hive: hive.clone(),
                subkey: subkey.clone(),
                value: value.clone(),
            },
            Location::ScheduledTask { name } => Location::ScheduledTask { name: name.clone() },
            Location::StartupShortcut { path, file_name } => Location::StartupShortcut {
                path: path.clone(),
                file_name: file_name.clone(),
            },
        }
    }

    /// How to describe this to somebody who did not write it.
    pub fn describe(&self) -> (r: String)
        ensures
            r@ == described(self@),
    {
        match self {
            Location::RunValue { hive, value, .. } => joined(
                enclosed("a startup entry named \"", value.as_str(), "\" in ").as_str(),
                hive.as_str(),
            ),
            Location::ScheduledTask { name } => enclosed(
                "a scheduled task named \"",
                name.as_str(),
                "\"",
            ),
            Location::StartupShortcut { file_name, .. } => enclosed(
                "a shortcut in your Startup folder (",
                file_name.as_str(),
                ")",
            ),
        }
    }

    /// Whether switching this off can be undone without us having recorded anything.
    pub fn is_reversible(&self) -> (r: bool)
        ensures
            r == !(*self is RunValue),
    {
        match self {
            Location::RunValue { .. } => false,
            _ => true,
        }
    }
}

/// A known application arranged to start with the machine.
#[derive(Debug, Clone, PartialEq, Eq)]
pub struct AutostartEntry {
    pub app: KnownApp,
    pub location: Location,
    /// The command line it starts, as found.
    pub command: String,
}

/// What switching one off actually did.
#[derive(Debug, Clone, PartialEq, Eq)]
pub struct Disabled {
    pub what: String,
    /// How to put it back, for entries the platform gave us no reversible option for.
    pub restore_hint: Option<String>,
}

/// Why an entry could not be switched off.
#[derive(Debug, Clone, PartialEq, Eq)]
pub enum AutostartError {
    Failed { what: String, detail: String },
    Unsupported,
}

impl AutostartError {
    /// What this says to a person.
    pub fn message(&self) -> (r: String)
        ensures
            r@ == match *self {
                AutostartError::Failed { what, detail } => "could not switch off "@ + what@ + ": "@
                    + detail@,
                AutostartError::Unsupported => "autostart handling is only implemented on Windows"@,
            },
    {
        match self {
            AutostartError::Failed { what, detail } => joined(
                enclosed("could not switch off ", what.as_str(), ": ").as_str(),
                detail.as_str(),
            ),
            AutostartError::Unsupported => "autostart handling is only implemented on Windows".to_owned(),
        }
    }
}

// --- Recognising -----------------------------------------------------------------------------

/// Where the last part of a path starts, as far as its first `n` characters tell.
pub open spec fn part_start(path: Text, n: int) -> int
    decreases n,
{
    if n <= 0 || path[n - 1] == '\\' || path[n - 1] == '/' {
        n
    } else {
        part_start(path, n - 1)
    }
}

/// The last part of a path.
pub open spec fn last_part(path: Text) -> Text {
    path.skip(part_start(path, path.len() as int))
}

/// Whether a command line runs an application: its executable has one of the application's
/// names, whatever the case. A path which merely contains the word does not match.
pub open spec fn runs(command: Text, app: AppView) -> bool {
    exists|i: int|
        0 <= i < app.process_names.len() && executable(command) is Some && ascii_lowered(
            last_part(executable(command)->0),
        ) == ascii_lowered(#[trigger] app.process_names[i]) + ".exe"@
}

/// The first of the applications from `i` on that a command line runs.
pub open spec fn first_run(apps: Seq<AppView>, command: Text, i: int) -> Option<AppView>
    decreases apps.len() - i,
{
    if i >= apps.len() {
        None
    } else if runs(command, apps[i]) {
        Some(apps[i])
    } else {
        first_run(apps, command, i + 1)
    }
}

/// The known application that a command line runs, if any.
pub open spec fn recognised(command: Text) -> Option<AppView> {
    first_run(registry(), command, 0)
}

fn last_part_of(path: &str) -> (r: String)
    ensures
        r@ == last_part(path@),
{
    let chars = chars_of(path);
    let total: usize = chars.len();
    let mut n: usize = total;
    while n > 0 && chars[n - 1] != '\\' && chars[n - 1] != '/'
        invariant
            n <= total == chars@.len(),
            chars@ == path@,
            part_start(path@, total as int) == part_start(path@, n as int),
        decreases n,
    {
        n -= 1;
    }
    let r = text_of(&chars, n, total);
    assert(r@ =~= last_part(path@));
    r
}

fn is_run_by(command: &str, app: &KnownApp) -> (r: bool)
    ensures
        r == runs(command@, app@),
{
    let exe = match executable_of(command) {
        Some(exe) => exe,
        None => {
            return false;
        },
    };
    let name = lower_ascii(last_part_of(exe.as_str()).as_str());
    let n: usize = app.process_names.len();
    for i in 0..n
        invariant
            n == app.process_names@.len(),
            executable(command@) == Some(exe@),
            name@ == ascii_lowered(last_part(exe@)),
            forall|k: int|
                0 <= k < i ==> name@ != ascii_lowered(#[trigger] app@.process_names[k]) + ".exe"@,
    {
        assert(app@.process_names[i as int] == app.process_names@[i as int]@);
        let wanted = joined(lower_ascii(app.process_names[i].as_str()).as_str(), ".exe");
        if same(name.as_str(), wanted.as_str()) {
            return true;
        }
    }
    false
}

/// Matches a command line against the applications we know.
///
/// Matched on the executable name rather than on the name of the entry, because the entry's
/// name is whatever its author typed and the executable is what actually runs.
pub fn app_for_command(command: &str) -> (r: Option<KnownApp>)
    ensures
        match r {
            Some(app) => recognised(command@) == Some(app@),
            None => recognised(command@) is None,
        },
{
    let apps = known_apps();
    let n: usize = apps.len();
    assert(app_views(apps@).len() == n);
    for i in 0..n
        invariant
            n == apps@.len(),
            n == registry().len(),
            app_views(apps@) == registry(),
            recognised(command@) == first_run(registry(), command@, i as int),
    {
        assert(registry()[i as int] == apps@[i as int]@);
        if is_run_by(command, &apps[i]) {
            return Some(apps[i].copy());
        }
    }
    None
}

/// Matches a command line against the applications we know.
pub fn recognise(command: &str) -> (r: Option<KnownApp>)
    ensures
        match r {
            Some(app) => recognised(command@) == Some(app@),
            None => recognised(command@) is None,
        },
{
    app_for_command(command)
}

// --- Executables -----------------------------------------------------------------------------

/// The first position from `i` on that satisfies a predicate, or the end.
pub open spec fn first_where(s: Text, wanted: spec_fn(char) -> bool, i: int) -> int
    decreases s.len() - i,
{
    if i >= s.len() || wanted(s[i]) {
        i
    } else {
        first_where(s, wanted, i + 1)
    }
}

/// Whether an `.exe`, however it is spelled, ends at a position, and white space or nothing
/// follows.
pub open spec fn exe_ends_at(s: Text, e: int) -> bool {
    &&& 4 <= e <= s.len()
    &&& stands_at(ascii_lowered(s), ".exe"@, e - 4)
    &&& e == s.len() || white(s[e])
}

/// The first position from `e` on where an `.exe` ends.
pub open spec fn first_exe_end(s: Text, e: int) -> Option<int>
    decreases s.len() + 1 - e,
{
    if e > s.len() {
        None
    } else if exe_ends_at(s, e) {
        Some(e)
    } else {
        first_exe_end(s, e + 1)
    }
}

/// The executable of a command line: what stands between quotes at its start. Without quotes it
/// goes up to the first `.exe`, so that a path may have white space in it, or is the first word
/// where there is none.
pub open spec fn executable(command: Text) -> Option<Text> {
    let t = trimmed(command);
    if t.len() > 0 && t[0] == '"' {
        Some(t.subrange(1, first_where(t, |c: char| c == '"', 1)))
    } else {
        match first_exe_end(t, 4) {
            Some(e) => Some(t.take(e)),
            None => {
                let word = t.take(first_where(t, |c: char| white(c), 0));
                if word.len() > 0 {
                    Some(word)
                } else {
                    None
                }
            },
        }
    }
}

fn find_exe_end(chars: &Vec<char>) -> (r: Option<usize>)
    ensures
        match r {
            Some(e) => first_exe_end(chars@, 4) == Some(e as int) && e <= chars@.len(),
            None => first_exe_end(chars@, 4) is None,
        },
{
    let text = text_from(chars);
    let lower = chars_of(lower_ascii(text.as_str()).as_str());
    let wanted = chars_of(".exe");
    let n: usize = chars.len();
    proof {
        reveal_strlit(".exe");
        assert(lower@.len() == n);
    }
    if n < 4 {
        return None;
    }
    let mut e: usize = 4;
    loop
        invariant
            4 <= e <= n == chars@.len(),
            lower@ == ascii_lowered(chars@),
            lower@.len() == n,
            wanted@ == ".exe"@,
            first_exe_end(chars@, 4) == first_exe_end(chars@, e as int),
        decreases n - e,
    {
        if matches_at(&lower, &wanted, e - 4) && (e == n || chars[e].is_whitespace()) {
            return Some(e);
        }
        if e == n {
            assert(first_exe_end(chars@, n + 1) is None);
            return None;
        }
        e += 1;
    }
}

/// Pulls the executable out of a command line, quoted or not.
pub fn executable_of(command: &str) -> (r: Option<String>)
    ensures
        match r {
            Some(exe) => executable(command@) == Some(exe@),
            None => executable(command@) is None,
        },
{
    let chars = trim(&chars_of(command));
    let n: usize = chars.len();
    let ghost t = trimmed(command@);
    if n > 0 && chars[0] == '"' {
        let ghost quote = |c: char| c == '"';
        let mut i: usize = 1;
        while i < n && chars[i] != '"'
            invariant
                1 <= i <= n == chars@.len(),
                chars@ == t,
                quote == (|c: char| c == '"'),
                first_where(t, quote, 1) == first_where(t, quote, i as int),
            decreases n - i,
        {
            i += 1;
        }
        return Some(text_of(&chars, 1, i));
    }
    if let Some(e) = find_exe_end(&chars) {
        let r = text_of(&chars, 0, e);
        assert(r@ =~= t.take(e as int));
        return Some(r);
    }
    let ghost space = |c: char| white(c);
    let mut i: usize = 0;
    while i < n && !chars[i].is_whitespace()
        invariant
            i <= n == chars@.len(),
            chars@ == t,
            space == (|c: char| white(c)),
            first_where(t, space, 0) == first_where(t, space, i as int),
        decreases n - i,
    {
        i += 1;
    }
    if i == 0 {
        None
    } else {
        Some(text_of(&chars, 0, i))
    }
}

/// Whether a drive letter, a colon and a separator stand at a position.
pub open spec fn drive_at(s: Text, i: int) -> bool {
    &&& 0 <= i && i + 2 < s.len()
    &&& ('a' <= s[i] <= 'z' || 'A' <= s[i] <= 'Z')
    &&& s[i + 1] == ':'
    &&& (s[i + 2] == '\\' || s[i + 2] == '/')
}

/// The last position before `n` where a drive stands.
pub open spec fn last_drive(s: Text, n: int) -> Option<int>
    decreases n,
{
    if n <= 0 {
        None
    } else if drive_at(s, n - 1) {
        Some(n - 1)
    } else {
        last_drive(s, n - 1)
    }
}

/// The first executable path in a text: up to its first `.exe`, back to the nearest drive.
pub open spec fn embedded_executable(s: Text) -> Option<Text> {
    match first_at(ascii_lowered(s), ".exe"@, 0) {
        Some(e) => match last_drive(s, e) {
            Some(start) => Some(s.subrange(start, e + 4)),
            None => None,
        },
        None => None,
    }
}

fn is_drive(chars: &Vec<char>, i: usize) -> (r: bool)
    requires
        i < chars@.len(),
    ensures
        r == drive_at(chars@, i as int),
{
    let n: usize = chars.len();
    if n < 3 || i > n - 3 {
        return false;
    }
    let c = chars[i];
    (('a' <= c && c <= 'z') || ('A' <= c && c <= 'Z')) && chars[i + 1] == ':' && (chars[i + 2]
        == '\\' || chars[i + 2] == '/')
}

/// Finds an executable path embedded in arbitrary text.
///
/// Shell links store their target inside a binary structure, so there is no command line to
/// split — the path has to be found. Anchored on `.exe` and walked back to a drive letter.
pub fn executable_in(text: &str) -> (r: Option<String>)
    ensures
        match r {
            Some(exe) => embedded_executable(text@) == Some(exe@),
            None => embedded_executable(text@) is None,
        },
{
    let chars = chars_of(text);
    let lower = chars_of(lower_ascii(text).as_str());
    let wanted = chars_of(".exe");
    proof {
        reveal_strlit(".exe");
        assert(lower@.len() == chars@.len());
    }
    let end: usize = match find_from(&lower, &wanted, 0) {
        Some(e) => e,
        None => {
            return None;
        },
    };
    assert(end + 4 <= chars@.len());
    let mut n: usize = end;
    while n > 0
        invariant
            n <= end,
            end + 4 <= chars@.len(),
            chars@ == text@,
            first_at(ascii_lowered(text@), ".exe"@, 0) == Some(end as int),
            last_drive(text@, end as int) == last_drive(text@, n as int),
        decreases n,
    {
        if is_drive(&chars, n - 1) {
            return Some(text_of(&chars, n - 1, end + 4));
        }
        n -= 1;
    }
    None
}

// --- Reading files ---------------------------------------------------------------------------

/// The text that UTF-16 code units encode: a character for each unit that is no surrogate, one
/// for each pair of a high and a low surrogate, and a replacement character for each surrogate
/// that is not part of a pair.
pub open spec fn utf16_text(units: Seq<u16>) -> Text
    decreases units.len(),
{
    if units.len() == 0 {
        Seq::empty()
    } else if units[0] < 0xD800 || 0xDFFF < units[0] {
        seq![units[0] as char] + utf16_text(units.skip(1))
    } else if units[0] < 0xDC00 && units.len() > 1 && 0xDC00 <= units[1] <= 0xDFFF {
        seq![(0x10000 + (units[0] - 0xD800) * 0x400 + (units[1] - 0xDC00)) as char] + utf16_text(
            units.skip(2),
        )
    } else {
        seq!['\u{FFFD}'] + utf16_text(units.skip(1))
    }
}

/// [`String::from_utf16_lossy`] of std: the text that UTF-16 code units encode, with a
/// replacement character for what encodes nothing.
#[verifier::external_body]
fn from_utf16(units: &Vec<u16>) -> (r: String)
    ensures
        r@ == utf16_text(units@),
{
    String::from_utf16_lossy(units)
}

/// What [`String::from_utf8_lossy`] makes of bytes.
pub uninterp spec fn utf8_text(bytes: Seq<u8>) -> Seq<char>;

/// [`String::from_utf8_lossy`] of std: the text that UTF-8 bytes encode, with a replacement
/// character for what encodes nothing. Nothing is stated of how many of those stand for bytes
/// that are no UTF-8.
#[verifier::external_body]
fn from_utf8(bytes: &Vec<u8>) -> (r: String)
    ensures
        r@ == utf8_text(bytes@),
        valid_utf8(bytes@) ==> r@ == decode_utf8(bytes@),
{
    String::from_utf8_lossy(bytes).into_owned()
}

/// The little-endian code units in bytes, from a position on: the first `n`.
pub open spec fn units_from(bytes: Seq<u8>, start: int, n: nat) -> Seq<u16> {
    Seq::new(
        n,
        |k: int| (bytes[start + 2 * k] + 256 * bytes[start + 2 * k + 1]) as u16,
    )
}

fn read_units(bytes: &Vec<u8>, start: usize) -> (r: Vec<u16>)
    requires
        start <= bytes@.len(),
    ensures
        r@ == units_from(bytes@, start as int, ((bytes@.len() - start) / 2) as nat),
{
    let mut out: Vec<u16> = Vec::new();
    let total: usize = bytes.len();
    let n: usize = (total - start) / 2;
    for k in 0..n
        invariant
            total == bytes@.len(),
            start <= total,
            n == (total - start) / 2,
            out@ == units_from(bytes@, start as int, k as nat),
    {
        let low = bytes[start + 2 * k];
        let high = bytes[start + 2 * k + 1];
        out.push((low as u16) + 256 * (high as u16));
        assert(out@ =~= units_from(bytes@, start as int, (k + 1) as nat));
    }
    out
}

/// What the bytes of a task definition say: UTF-16 where they start with its mark, UTF-8
/// otherwise.
pub open spec fn decoded(bytes: Seq<u8>) -> Text {
    if bytes.len() >= 2 && bytes[0] == 0xFF && bytes[1] == 0xFE {
        utf16_text(units_from(bytes, 2, ((bytes.len() - 2) / 2) as nat))
    } else {
        utf8_text(bytes)
    }
}

/// Reads the text of a task definition, which is UTF-16 with a mark.
pub fn decode_utf16_or_utf8(bytes: &Vec<u8>) -> (r: String)
    ensures
        r@ == decoded(bytes@),
{
    if bytes.len() >= 2 && bytes[0] == 0xFF && bytes[1] == 0xFE {
        from_utf16(&read_units(bytes, 2))
    } else {
        from_utf8(bytes)
    }
}

/// Where the first zero stands among code units, from a position on; their number if there is
/// none.
pub open spec fn first_zero(units: Seq<u16>, i: int) -> int
    decreases units.len() - i,
{
    if i >= units.len() {
        units.len() as int
    } else if units[i] == 0 {
        i
    } else {
        first_zero(units, i + 1)
    }
}

/// What the data of a string value in the registry says: UTF-16, up to the first zero.
pub open spec fn registry_text(data: Seq<u8>) -> Text {
    let units = units_from(data, 0, (data.len() / 2) as nat);
    utf16_text(units.take(first_zero(units, 0)))
}

/// Reads the data of a string value, which is usually, but not always, ended by a zero.
pub fn read_registry_text(data: &Vec<u8>) -> (r: String)
    ensures
        r@ == registry_text(data@),
{
    let units = read_units(data, 0);
    let mut kept: Vec<u16> = Vec::new();
    let n: usize = units.len();
    let mut i: usize = 0;
    while i < n && units[i] != 0
        invariant
            n == units@.len(),
            i <= n,
            kept@ == units@.take(i as int),
            first_zero(units@, 0) == first_zero(units@, i as int),
        decreases n - i,
    {
        kept.push(units[i]);
        i += 1;
        assert(kept@ =~= units@.take(i as int));
    }
    from_utf16(&kept)
}

/// Where a person's startup list lives, below their own hive and below the machine's.
pub const RUN_SUBKEY: &'static str = "Software\\Microsoft\\Windows\\CurrentVersion\\Run";

/// Whether an account's hive carries a person's startup list: `_Classes` hives hold file
/// associations, and `.DEFAULT` is the profile used before anyone signs in.
pub open spec fn personal(sid: Text) -> bool {
    !stands_at(sid, "_Classes"@, sid.len() - "_Classes"@.len()) && sid != ".DEFAULT"@
}

/// Where each of the first `n` accounts keeps its startup list, below all the accounts.
pub open spec fn account_keys(sids: Seq<Text>, n: nat) -> Seq<Text>
    decreases n,
{
    if n == 0 {
        Seq::empty()
    } else {
        let before = account_keys(sids, (n - 1) as nat);
        if personal(sids[n - 1]) {
            before.push(sids[n - 1] + "\\"@ + RUN_SUBKEY@)
        } else {
            before
        }
    }
}

fn is_personal(sid: &str) -> (r: bool)
    ensures
        r == personal(sid@),
{
    let chars = chars_of(sid);
    let ending = chars_of("_Classes");
    if chars.len() >= ending.len() && matches_at(&chars, &ending, chars.len() - ending.len()) {
        return false;
    }
    !same(sid, ".DEFAULT")
}

/// Where the accounts of a machine keep their startup lists.
pub fn run_keys_of(sids: &Vec<String>) -> (r: Vec<String>)
    ensures
        texts(r@) == account_keys(texts(sids@), sids@.len()),
{
    let mut out: Vec<String> = Vec::new();
    let n: usize = sids.len();
    assert(texts(out@) =~= Seq::<Text>::empty());
    for i in 0..n
        invariant
            n == sids@.len(),
            texts(out@) == account_keys(texts(sids@), i as nat),
    {
        if is_personal(sids[i].as_str()) {
            let ghost before = out@;
            out.push(enclosed(sids[i].as_str(), "\\", RUN_SUBKEY));
            assert(texts(out@) =~= texts(before).push(out@.last()@));
        }
    }
    out
}

/// The first command in a task definition.
pub open spec fn task_command(xml: Text) -> Option<Text> {
    match first_at(xml, "<Command>"@, 0) {
        Some(open) => {
            let start = open + 9;
            match first_at(xml, "</Command>"@, start) {
                Some(end) => {
                    let raw = trimmed(xml.subrange(start, end));
                    if raw.len() > 0 {
                        Some(replaced(replaced(raw, "&quot;"@, "\""@), "&amp;"@, "&"@))
                    } else {
                        None
                    }
                },
                None => None,
            }
        },
        None => None,
    }
}

/// Pulls the first `<Command>` out of a task definition.
///
/// Deliberately a substring search rather than a parser: an unexpected file should yield
/// nothing rather than an error.
pub fn command_in_task(xml: &str) -> (r: Option<String>)
    ensures
        match r {
            Some(command) => task_command(xml@) == Some(command@),
            None => task_command(xml@) is None,
        },
{
    let chars = chars_of(xml);
    proof {
        reveal_strlit("<Command>");
        reveal_strlit("</Command>");
        reveal_strlit("&quot;");
        reveal_strlit("&amp;");
        crate::text::lemma_first_at(xml@, "<Command>"@, 0);
    }
    let open: usize = match find_from(&chars, &chars_of("<Command>"), 0) {
        Some(open) => open,
        None => {
            return None;
        },
    };
    let total: usize = chars.len();
    assert(open + 9 <= total);
    let start: usize = open + 9;
    proof {
        crate::text::lemma_first_at(xml@, "</Command>"@, start as int);
    }
    let end: usize = match find_from(&chars, &chars_of("</Command>"), start) {
        Some(end) => end,
        None => {
            return None;
        },
    };
    let raw = trim(&sliced(&chars, start, end));
    if raw.len() == 0 {
        return None;
    }
    let quoted = replace(&raw, &chars_of("&quot;"), &chars_of("\""));
    Some(text_from(&replace(&quoted, &chars_of("&amp;"), &chars_of("&"))))
}

/// Whether a code unit is a character by itself, other than a zero.
pub open spec fn lone(unit: u16) -> bool {
    unit != 0 && !(0xD800 <= unit <= 0xDFFF)
}

/// The characters among the first `n` code units.
pub open spec fn wide_text(units: Seq<u16>, n: nat) -> Text
    decreases n,
{
    if n == 0 {
        Seq::empty()
    } else if lone(units[n - 1]) {
        wide_text(units, (n - 1) as nat).push(units[n - 1] as char)
    } else {
        wide_text(units, (n - 1) as nat)
    }
}

/// [`char::from_u32`] of std: the character with a code, which every code up to the last has,
/// except those between `D800` and `DFFF`.
#[verifier::external_body]
fn char_of(code: u32) -> (r: Option<char>)
    ensures
        match r {
            Some(c) => code <= 0x10FFFF && (code < 0xD800 || 0xDFFF < code) && c == code as char,
            None => code > 0x10FFFF || (0xD800 <= code && code <= 0xDFFF),
        },
{
    char::from_u32(code)
}

fn read_wide(units: &Vec<u16>) -> (r: String)
    ensures
        r@ == wide_text(units@, units@.len()),
{
    let mut out = String::new();
    let n: usize = units.len();
    assert(out@ =~= Seq::empty());
    for i in 0..n
        invariant
            n == units@.len(),
            out@ == wide_text(units@, i as nat),
    {
        if units[i] != 0 {
            if let Some(c) = char_of(units[i] as u32) {
                assert(c == units@[i as int] as char);
                out.push(c);
            }
        }
    }
    out
}

/// What a shortcut points at: the executable path in it, in whichever encoding carries it,
/// or else its own name.
pub open spec fn target_of(narrow: Text, wide: Text, stem: Option<Text>) -> Option<Text> {
    match embedded_executable(narrow) {
        Some(exe) => Some(exe),
        None => match embedded_executable(wide) {
            Some(exe) => Some(exe),
            None => stem,
        },
    }
}

/// Picks what a shortcut points at out of the texts in it.
pub fn choose_target(narrow: &str, wide: &str, stem: Option<String>) -> (r: Option<String>)
    ensures
        crate::fancontrol::said(r) == target_of(narrow@, wide@, crate::fancontrol::said(stem)),
{
    match executable_in(narrow) {
        Some(exe) => Some(exe),
        None => match executable_in(wide) {
            Some(exe) => Some(exe),
            None => stem,
        },
    }
}

/// What a shortcut points at, given its bytes and its own name.
///
/// A shortcut is a structured binary that stores its target as a plain string, often twice —
/// once narrow and once wide.
pub fn shortcut_target(bytes: &Vec<u8>, stem: Option<String>) -> (r: Option<String>)
    ensures
        crate::fancontrol::said(r) == target_of(
            utf8_text(bytes@),
            wide_text(
                units_from(bytes@, 0, (bytes@.len() / 2) as nat),
                (bytes@.len() / 2) as nat,
            ),
            crate::fancontrol::said(stem),
        ),
{
    let narrow = from_utf8(bytes);
    let wide = read_wide(&read_units(bytes, 0));
    choose_target(narrow.as_str(), wide.as_str(), stem)
}

// --- Surveying -------------------------------------------------------------------------------

/// Something that starts with the machine, recognised or not.
#[derive(Debug, Clone, PartialEq, Eq)]
pub struct Surveyed {
    pub location: Location,
    pub command: String,
    /// Whether the executable that the command names is a file.
    pub executable_exists: bool,
}

/// Whether an entry still starts something: its command has an executable, and that is there.
pub open spec fn installed(s: Surveyed) -> bool {
    executable(s.command@) is Some && s.executable_exists
}

/// Whether an entry still starts something. One left behind by an uninstall does not, and
/// reporting it would send someone looking for a program that is not there.
pub fn still_installed(entry: &Surveyed) -> (r: bool)
    ensures
        r == installed(*entry),
{
    executable_of(entry.command.as_str()).is_some() && entry.executable_exists
}

/// An entry of a known application, as contracts speak of it.
#[verifier::ext_equal]
pub struct EntryView {
    pub app: AppView,
    pub location: LocationView,
    pub command: Text,
}

impl View for AutostartEntry {
    type V = EntryView;

    open spec fn view(&self) -> EntryView {
        EntryView { app: self.app@, location: self.location@, command: self.command@ }
    }
}

/// What a list of entries says.
pub open spec fn entry_views(list: Seq<AutostartEntry>) -> Seq<EntryView> {
    Seq::new(list.len(), |i: int| list[i]@)
}

/// The rivals among the first `n` entries, as they are listed.
pub open spec fn rivals(all: Seq<Surveyed>, n: nat) -> Seq<EntryView>
    decreases n,
{
    if n == 0 {
        Seq::empty()
    } else {
        let before = rivals(all, (n - 1) as nat);
        let s = all[n - 1];
        match recognised(s.command@) {
            Some(app) => if installed(s) {
                before.push(EntryView { app, location: s.location@, command: s.command@ })
            } else {
                before
            },
            None => before,
        }
    }
}

/// The rivals, and how many entries were examined to find them.
///
/// The count is the point. "No fan controller starts with this machine" and "the scan saw
/// nothing at all" produce the same empty list, and only one of them is an all-clear.
pub fn scan(all: &Vec<Surveyed>) -> (r: (Vec<AutostartEntry>, usize))
    ensures
        entry_views(r.0@) == rivals(all@, all@.len()),
        r.1 == all@.len(),
{
    let examined: usize = all.len();
    let mut found: Vec<AutostartEntry> = Vec::new();
    assert(entry_views(found@) =~= Seq::empty());
    for i in 0..examined
        invariant
            examined == all@.len(),
            entry_views(found@) == rivals(all@, i as nat),
    {
        let entry = &all[i];
        if let Some(app) = app_for_command(entry.command.as_str()) {
            if still_installed(entry) {
                let ghost before = entry_views(found@);
                let rival = AutostartEntry {
                    app,
                    location: entry.location.copy(),
                    command: entry.command.clone(),
                };
                let ghost view = rival@;
                found.push(rival);
                assert(entry_views(found@) =~= before.push(view));
            }
        }
    }
    (found, examined)
}

/// Every known fan controller arranged to start with this machine.
///
/// A machine with none gives an empty list, which is the answer that lets a caller say
/// "nothing will come back after a reboot" honestly.
pub fn find(all: &Vec<Surveyed>) -> (r: Vec<AutostartEntry>)
    ensures
        entry_views(r@) == rivals(all@, all@.len()),
{
    scan(all).0
}

// --- Switching off ---------------------------------------------------------------------------

/// What switching an entry off takes.
#[derive(Debug, Clone, PartialEq, Eq)]
pub enum DisableStep {
    /// Disable a scheduled task: it can be enabled again.
    DisableTask { name: String },
    /// Give a shortcut another extension: it can be renamed back.
    RenameShortcut { path: String, extension: String },
    /// Delete a value under a `Run` key, of the machine or of a user.
    DeleteValue { of_machine: bool, subkey: String, value: String },
}

/// What a step does, as contracts speak of it.
pub enum StepView {
    DisableTask { name: Text },
    RenameShortcut { path: Text, extension: Text },
    DeleteValue { of_machine: bool, subkey: Text, value: Text },
}

impl View for DisableStep {
    type V = StepView;

    open spec fn view(&self) -> StepView {
        match *self {
            DisableStep::DisableTask { name } => StepView::DisableTask { name: name@ },
            DisableStep::RenameShortcut { path, extension } => StepView::RenameShortcut {
                path: path@,
                extension: extension@,
            },
            DisableStep::DeleteValue { of_machine, subkey, value } => StepView::DeleteValue {
                of_machine,
                subkey: subkey@,
                value: value@,
            },
        }
    }
}

/// What switching a location off takes: the gentlest thing that it supports.
pub open spec fn disabling(l: LocationView) -> StepView {
    match l {
        LocationView::ScheduledTask { name } => StepView::DisableTask { name },
        LocationView::StartupShortcut { path, file_name } => StepView::RenameShortcut {
            path,
            extension: "lnk.openfan-disabled"@,
        },
        LocationView::RunValue { hive, subkey, value } => StepView::DeleteValue {
            of_machine: hive == "this machine"@,
            subkey,
            value,
        },
    }
}

/// What switching one entry off takes. **Only ever from an explicit instruction.**
pub fn disable(entry: &AutostartEntry) -> (r: DisableStep)
    ensures
        r@ == disabling(entry@.location),
{
    match &entry.location {
        Location::ScheduledTask { name } => DisableStep::DisableTask { name: name.clone() },
        Location::StartupShortcut { path, .. } => DisableStep::RenameShortcut {
            path: path.clone(),
            extension: "lnk.openfan-disabled".to_owned(),
        },
        Location::RunValue { hive, subkey, value } => DisableStep::DeleteValue {
            of_machine: crate::text::same(hive.as_str(), "this machine"),
            subkey: subkey.clone(),
            value: value.clone(),
        },
    }
}

/// What is being switched off.
pub open spec fn what_is(entry: EntryView) -> Text {
    entry.app.name + ": "@ + described(entry.location)
}

/// How to put an entry back, where the platform has no reversible option: a startup entry that
/// vanishes without a trace is not something to do to somebody's machine.
pub open spec fn hint(entry: EntryView) -> Option<Text> {
    match entry.location {
        LocationView::RunValue { hive, subkey, value } => Some(
            "It ran: "@ + entry.command + ". Recreate it as a value named \""@ + value
                + "\" under "@ + subkey + " to put it back."@,
        ),
        _ => None,
    }
}

/// What switching an entry off came to, given how its step went.
pub fn disabled(entry: &AutostartEntry, outcome: Result<(), String>) -> (r: Result<
    Disabled,
    AutostartError,
>)
    ensures
        match outcome {
            Ok(_) => r is Ok && r->Ok_0.what@ == what_is(entry@) && crate::fancontrol::said(
                r->Ok_0.restore_hint,
            ) == hint(entry@),
            Err(reason) => match r {
                Err(AutostartError::Failed { what, detail }) => what@ == what_is(entry@) && detail@
                    == reason@,
                _ => false,
            },
        },
{
    let what = enclosed(entry.app.name.as_str(), ": ", entry.location.describe().as_str());
    match outcome {
        Err(detail) => Err(AutostartError::Failed { what, detail }),
        Ok(_) => {
            let restore_hint = match &entry.location {
                Location::RunValue { subkey, value, .. } => Some(
                    enclosed(
                        enclosed(
                            enclosed(
                                "It ran: ",
                                entry.command.as_str(),
                                ". Recreate it as a value named \"",
                            ).as_str(),
                            value.as_str(),
                            "\" under ",
                        ).as_str(),
                        subkey.as_str(),
                        " to put it back.",
                    ),
                ),
                _ => None,
            };
            Ok(Disabled { what, restore_hint })
        },
    }
}

// --- Laws ----------------------------------------------------------------------------------------

/// What cannot be undone is reported back: a location that is not reversible comes with a hint
/// that says what was removed, and a reversible one needs none.
pub proof fn what_cannot_be_undone_is_reported(entry: EntryView)
    ensures
        hint(entry) is Some <==> entry.location is RunValue,
        disabling(entry.location) is DeleteValue <==> entry.location is RunValue,
{
}

/// Every rival that a scan reports runs a known application, from an entry that was surveyed
/// and still starts something.
pub proof fn rivals_are_known_and_installed(all: Seq<Surveyed>, n: nat, i: int)
    requires
        n <= all.len(),
        0 <= i < rivals(all, n).len(),
    ensures
        exists|k: int|
            0 <= k < n && installed(#[trigger] all[k]) && recognised(all[k].command@) == Some(
                rivals(all, n)[i].app,
            ) && all[k].location@ == rivals(all, n)[i].location && all[k].command@ == rivals(
                all,
                n,
            )[i].command,
    decreases n,
{
    if n > 0 {
        let before = rivals(all, (n - 1) as nat);
        if i < before.len() {
            rivals_are_known_and_installed(all, (n - 1) as nat, i);
            assert(rivals(all, n)[i] == before[i]);
        } else {
            assert(installed(all[n - 1]));
        }
    }
}

} // verus!
