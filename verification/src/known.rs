//! The applications we know how to recognise.
//!
//! Recognising a competitor by process name is a heuristic and is treated as one: it tells us
//! *who to ask about* a channel that looks foreign-controlled, never on its own that a channel
//! is contended. The chip is the authority.
//!
//! Entries are split by what they do, because the right response differs. A program that
//! drives PWM has to stand down before we take a channel. A program that only reads sensors
//! can coexist indefinitely.
use crate::text::{
    ascii_lower, ascii_lowered, chars_of, lower_ascii, lower_char, same, stands_at, text_of, texts, Text,
};
use vstd::prelude::*;

verus! {

/// What an application does to the hardware we care about.
#[derive(Debug, Clone, Copy, PartialEq, Eq, Structural)]
pub enum Role {
    /// Drives fan PWM. Cannot share a channel with us.
    Controller,
    /// Reads sensors, and may hold the bus, but does not drive fans.
    Monitor,
    /// Vendor software that may do either, usually through its own kernel driver.
    Vendor,
}

/// An application we can recognise by process name.
#[derive(Debug, Clone, PartialEq, Eq)]
pub struct KnownApp {
    /// Stable identifier for logs and configuration.
    pub key: String,
    /// What to call it in the interface.
    pub name: String,
    pub role: Role,
    /// Executable names without extension, matched case-insensitively.
    pub process_names: Vec<String>,
    /// Shown to the user when explaining what is in the way.
    pub note: String,
}

/// An application, as contracts speak of it.
#[verifier::ext_equal]
pub struct AppView {
    pub key: Text,
    pub name: Text,
    pub role: Role,
    pub process_names: Seq<Text>,
    pub note: Text,
}

impl View for KnownApp {
    type V = AppView;

    open spec fn view(&self) -> AppView {
        AppView {
            key: self.key@,
            name: self.name@,
            role: self.role,
            process_names: texts(self.process_names@),
            note: self.note@,
        }
    }
}

impl KnownApp {
    /// The same application again.
    pub fn copy(&self) -> (r: KnownApp)
        ensures
            r@ == self@,
    {
        let mut names: Vec<String> = Vec::new();
        let n: usize = self.process_names.len();
        for i in 0..n
            invariant
                n == self.process_names@.len(),
                names@.len() == i,
                forall|k: int| 0 <= k < i ==> (#[trigger] names@[k])@ == self.process_names@[k]@,
        {
            names.push(self.process_names[i].clone());
        }
        let r = KnownApp {
            key: self.key.clone(),
            name: self.name.clone(),
            role: self.role,
            process_names: names,
            note: self.note.clone(),
        };
        assert(r@.process_names =~= self@.process_names);
        r
    }
}

/// What is known of `fancontrol`.
pub open spec fn fancontrol_entry() -> AppView {
    AppView {
        key: "fancontrol"@,
        name: "FanControl"@,
        role: Role::Controller,
        process_names: seq!["FanControl"@, "FanControl.Service"@],
        note: "Drives Super I/O PWM channels directly. Also a PawnIO client, so it shares the bus correctly — but it cannot share a fan header."@,
    }
}

/// What is known of `librehardwaremonitor`.
pub open spec fn librehardwaremonitor_entry() -> AppView {
    AppView {
        key: "librehardwaremonitor"@,
        name: "LibreHardwareMonitor"@,
        role: Role::Controller,
        process_names: seq!["LibreHardwareMonitor"@],
        note: "Reads sensors, and can set fan control when asked to."@,
    }
}

/// What is known of `openhardwaremonitor`.
pub open spec fn openhardwaremonitor_entry() -> AppView {
    AppView {
        key: "openhardwaremonitor"@,
        name: "Open Hardware Monitor"@,
        role: Role::Controller,
        process_names: seq!["OpenHardwareMonitor"@],
        note: "Unmaintained predecessor of LibreHardwareMonitor; may use WinRing0."@,
    }
}

/// What is known of `speedfan`.
pub open spec fn speedfan_entry() -> AppView {
    AppView {
        key: "speedfan"@,
        name: "SpeedFan"@,
        role: Role::Controller,
        process_names: seq!["speedfan"@],
        note: "Long-standing fan controller with its own kernel driver."@,
    }
}

/// What is known of `argusmonitor`.
pub open spec fn argusmonitor_entry() -> AppView {
    AppView {
        key: "argusmonitor"@,
        name: "Argus Monitor"@,
        role: Role::Controller,
        process_names: seq!["ArgusMonitor"@],
        note: "Drives fan headers through its own driver."@,
    }
}

/// What is known of `hwinfo`.
pub open spec fn hwinfo_entry() -> AppView {
    AppView {
        key: "hwinfo"@,
        name: "HWiNFO"@,
        role: Role::Monitor,
        process_names: seq!["HWiNFO64"@, "HWiNFO32"@, "HWiNFO64A"@],
        note: "Primarily a monitor and safe to run alongside, though it can be configured to control fans. Polls the Super I/O continuously."@,
    }
}

/// What is known of `aida64`.
pub open spec fn aida64_entry() -> AppView {
    AppView {
        key: "aida64"@,
        name: "AIDA64"@,
        role: Role::Monitor,
        process_names: seq!["aida64"@],
        note: "Polls the Super I/O continuously while its sensor panel is open."@,
    }
}

/// What is known of `armourycrate`.
pub open spec fn armourycrate_entry() -> AppView {
    AppView {
        key: "armourycrate"@,
        name: "ASUS Armoury Crate"@,
        role: Role::Vendor,
        process_names: seq!["ArmouryCrate.Service"@, "ArmourySocketServer"@, "ArmouryCrate.UserSessionHelper"@, "AsusCertService"@],
        note: "ASUS vendor software. Reaches hardware through its own kernel driver and holds a kernel mutex that user mode cannot acquire, so it cannot be serialised against — avoid contending for the EC ports rather than trying."@,
    }
}

/// What is known of `msiafterburner`.
pub open spec fn msiafterburner_entry() -> AppView {
    AppView {
        key: "msiafterburner"@,
        name: "MSI Afterburner"@,
        role: Role::Vendor,
        process_names: seq!["MSIAfterburner"@],
        note: "Controls GPU fans. Does not usually touch motherboard headers."@,
    }
}

/// What is known of `corsairicue`.
pub open spec fn corsairicue_entry() -> AppView {
    AppView {
        key: "corsairicue"@,
        name: "Corsair iCUE"@,
        role: Role::Vendor,
        process_names: seq!["iCUE"@],
        note: "Controls Corsair fan hubs and AIO pumps over USB, not the Super I/O."@,
    }
}

/// What is known of `nzxtcam`.
pub open spec fn nzxtcam_entry() -> AppView {
    AppView {
        key: "nzxtcam"@,
        name: "NZXT CAM"@,
        role: Role::Vendor,
        process_names: seq!["NZXT CAM"@],
        note: "Controls NZXT hardware over USB, not the Super I/O."@,
    }
}

/// The applications known to contend for fan control or the Super I/O bus, in the order in
/// which they are tried.
///
/// Deliberately conservative. A false positive here means telling someone to close a program
/// that was not the problem, which erodes trust in every later warning.
pub open spec fn registry() -> Seq<AppView> {
    seq![
        fancontrol_entry(),
        librehardwaremonitor_entry(),
        openhardwaremonitor_entry(),
        speedfan_entry(),
        argusmonitor_entry(),
        hwinfo_entry(),
        aida64_entry(),
        armourycrate_entry(),
        msiafterburner_entry(),
        corsairicue_entry(),
        nzxtcam_entry(),
    ]
}

fn entry(key: &str, name: &str, role: Role, process_names: Vec<String>, note: &str) -> (r: KnownApp)
    ensures
        r@ == (AppView {
            key: key@,
            name: name@,
            role,
            process_names: texts(process_names@),
            note: note@,
        }),
{
    KnownApp {
        key: key.to_owned(),
        name: name.to_owned(),
        role,
        process_names,
        note: note.to_owned(),
    }
}

/// What a list of applications says.
pub open spec fn app_views(list: Seq<KnownApp>) -> Seq<AppView> {
    Seq::new(list.len(), |i: int| list[i]@)
}

fn fancontrol_app() -> (r: KnownApp)
    ensures
        r@ == fancontrol_entry(),
{
    let names: Vec<String> = vec!["FanControl".to_owned(), "FanControl.Service".to_owned()];
    assert(texts(names@) =~= fancontrol_entry().process_names);
    entry("fancontrol", "FanControl", Role::Controller, names, "Drives Super I/O PWM channels directly. Also a PawnIO client, so it shares the bus correctly — but it cannot share a fan header.")
}

fn librehardwaremonitor_app() -> (r: KnownApp)
    ensures
        r@ == librehardwaremonitor_entry(),
{
    let names: Vec<String> = vec!["LibreHardwareMonitor".to_owned()];
    assert(texts(names@) =~= librehardwaremonitor_entry().process_names);
    entry("librehardwaremonitor", "LibreHardwareMonitor", Role::Controller, names, "Reads sensors, and can set fan control when asked to.")
}

fn openhardwaremonitor_app() -> (r: KnownApp)
    ensures
        r@ == openhardwaremonitor_entry(),
{
    let names: Vec<String> = vec!["OpenHardwareMonitor".to_owned()];
    assert(texts(names@) =~= openhardwaremonitor_entry().process_names);
    entry("openhardwaremonitor", "Open Hardware Monitor", Role::Controller, names, "Unmaintained predecessor of LibreHardwareMonitor; may use WinRing0.")
}

fn speedfan_app() -> (r: KnownApp)
    ensures
        r@ == speedfan_entry(),
{
    let names: Vec<String> = vec!["speedfan".to_owned()];
    assert(texts(names@) =~= speedfan_entry().process_names);
    entry("speedfan", "SpeedFan", Role::Controller, names, "Long-standing fan controller with its own kernel driver.")
}

fn argusmonitor_app() -> (r: KnownApp)
    ensures
        r@ == argusmonitor_entry(),
{
    let names: Vec<String> = vec!["ArgusMonitor".to_owned()];
    assert(texts(names@) =~= argusmonitor_entry().process_names);
    entry("argusmonitor", "Argus Monitor", Role::Controller, names, "Drives fan headers through its own driver.")
}

fn hwinfo_app() -> (r: KnownApp)
    ensures
        r@ == hwinfo_entry(),
{
    let names: Vec<String> = vec!["HWiNFO64".to_owned(), "HWiNFO32".to_owned(), "HWiNFO64A".to_owned()];
    assert(texts(names@) =~= hwinfo_entry().process_names);
    entry("hwinfo", "HWiNFO", Role::Monitor, names, "Primarily a monitor and safe to run alongside, though it can be configured to control fans. Polls the Super I/O continuously.")
}

fn aida64_app() -> (r: KnownApp)
    ensures
        r@ == aida64_entry(),
{
    let names: Vec<String> = vec!["aida64".to_owned()];
    assert(texts(names@) =~= aida64_entry().process_names);
    entry("aida64", "AIDA64", Role::Monitor, names, "Polls the Super I/O continuously while its sensor panel is open.")
}

fn armourycrate_app() -> (r: KnownApp)
    ensures
        r@ == armourycrate_entry(),
{
    let names: Vec<String> = vec!["ArmouryCrate.Service".to_owned(), "ArmourySocketServer".to_owned(), "ArmouryCrate.UserSessionHelper".to_owned(), "AsusCertService".to_owned()];
    assert(texts(names@) =~= armourycrate_entry().process_names);
    entry("armourycrate", "ASUS Armoury Crate", Role::Vendor, names, "ASUS vendor software. Reaches hardware through its own kernel driver and holds a kernel mutex that user mode cannot acquire, so it cannot be serialised against — avoid contending for the EC ports rather than trying.")
}

fn msiafterburner_app() -> (r: KnownApp)
    ensures
        r@ == msiafterburner_entry(),
{
    let names: Vec<String> = vec!["MSIAfterburner".to_owned()];
    assert(texts(names@) =~= msiafterburner_entry().process_names);
    entry("msiafterburner", "MSI Afterburner", Role::Vendor, names, "Controls GPU fans. Does not usually touch motherboard headers.")
}

fn corsairicue_app() -> (r: KnownApp)
    ensures
        r@ == corsairicue_entry(),
{
    let names: Vec<String> = vec!["iCUE".to_owned()];
    assert(texts(names@) =~= corsairicue_entry().process_names);
    entry("corsairicue", "Corsair iCUE", Role::Vendor, names, "Controls Corsair fan hubs and AIO pumps over USB, not the Super I/O.")
}

fn nzxtcam_app() -> (r: KnownApp)
    ensures
        r@ == nzxtcam_entry(),
{
    let names: Vec<String> = vec!["NZXT CAM".to_owned()];
    assert(texts(names@) =~= nzxtcam_entry().process_names);
    entry("nzxtcam", "NZXT CAM", Role::Vendor, names, "Controls NZXT hardware over USB, not the Super I/O.")
}

/// The applications known to contend for fan control or the Super I/O bus.
pub fn known_apps() -> (r: Vec<KnownApp>)
    ensures
        app_views(r@) == registry(),
{
    let r = vec![
        fancontrol_app(),
        librehardwaremonitor_app(),
        openhardwaremonitor_app(),
        speedfan_app(),
        argusmonitor_app(),
        hwinfo_app(),
        aida64_app(),
        armourycrate_app(),
        msiafterburner_app(),
        corsairicue_app(),
        nzxtcam_app(),
    ];
    assert(app_views(r@) =~= registry());
    r
}

/// Whether a text ends with another.
pub open spec fn ends_with(s: Text, suffix: Text) -> bool {
    s.len() >= suffix.len() && stands_at(s, suffix, s.len() - suffix.len())
}

/// A process name without its `.exe`, however that is spelled.
pub open spec fn bare_name(process: Text) -> Text {
    if ends_with(ascii_lowered(process), ".exe"@) {
        process.take(process.len() - 4)
    } else {
        process
    }
}

/// Whether an application has a process name, whatever its case.
pub open spec fn goes_by(app: AppView, name: Text) -> bool {
    exists|i: int|
        0 <= i < app.process_names.len() && ascii_lowered(#[trigger] app.process_names[i])
            == ascii_lowered(name)
}

/// The first of the applications from `i` on that has a process name.
pub open spec fn first_going_by(apps: Seq<AppView>, name: Text, i: int) -> Option<AppView>
    decreases apps.len() - i,
{
    if i >= apps.len() {
        None
    } else if goes_by(apps[i], name) {
        Some(apps[i])
    } else {
        first_going_by(apps, name, i + 1)
    }
}

/// The known application that owns a process name, if any.
pub open spec fn owner_of(process: Text) -> Option<AppView> {
    first_going_by(registry(), bare_name(process), 0)
}

fn without_exe(process: &str) -> (r: String)
    ensures
        r@ == bare_name(process@),
{
    let chars = chars_of(process);
    let n: usize = chars.len();
    proof {
        reveal_strlit(".exe");
        if n >= 4 {
            let end = ascii_lowered(process@).subrange(n - 4, n as int);
            assert(end[0] == ascii_lower(process@[n - 4]));
            assert(end[1] == ascii_lower(process@[n - 3]));
            assert(end[2] == ascii_lower(process@[n - 2]));
            assert(end[3] == ascii_lower(process@[n - 1]));
            assert(ends_with(ascii_lowered(process@), ".exe"@) <==> end =~= ".exe"@);
        }
    }
    if n >= 4 && lower_char(chars[n - 4]) == '.' && lower_char(chars[n - 3]) == 'e' && lower_char(
        chars[n - 2],
    ) == 'x' && lower_char(chars[n - 1]) == 'e' {
        let r = text_of(&chars, 0, n - 4);
        assert(r@ =~= process@.take(n - 4));
        r
    } else {
        process.to_owned()
    }
}

fn has_name(app: &KnownApp, name: &str) -> (r: bool)
    ensures
        r == goes_by(app@, name@),
{
    let wanted = lower_ascii(name);
    let n: usize = app.process_names.len();
    for i in 0..n
        invariant
            n == app.process_names@.len(),
            wanted@ == ascii_lowered(name@),
            forall|k: int|
                0 <= k < i ==> ascii_lowered(#[trigger] app@.process_names[k]) != wanted@,
    {
        assert(app@.process_names[i as int] == app.process_names@[i as int]@);
        if same(lower_ascii(app.process_names[i].as_str()).as_str(), wanted.as_str()) {
            return true;
        }
    }
    false
}

/// Finds the known application owning a process name, if any.
///
/// Case-insensitive, and tolerates a `.exe` suffix so a caller can pass whatever the OS
/// handed it.
pub fn lookup(process_name: &str) -> (r: Option<KnownApp>)
    ensures
        match r {
            Some(app) => owner_of(process_name@) == Some(app@),
            None => owner_of(process_name@) is None,
        },
{
    let name = without_exe(process_name);
    let apps = known_apps();
    let n: usize = apps.len();
    for i in 0..n
        invariant
            n == apps@.len(),
            app_views(apps@) == registry(),
            name@ == bare_name(process_name@),
            owner_of(process_name@) == first_going_by(registry(), name@, i as int),
    {
        assert(registry()[i as int] == apps@[i as int]@);
        if has_name(&apps[i], name.as_str()) {
            return Some(apps[i].copy());
        }
    }
    assert(registry().len() == n) by {
        assert(app_views(apps@).len() == n);
    }
    None
}

proof fn lemma_first_alike(apps: Seq<AppView>, a: Text, b: Text, i: int)
    requires
        ascii_lowered(a) == ascii_lowered(b),
    ensures
        first_going_by(apps, a, i) == first_going_by(apps, b, i),
    decreases apps.len() - i,
{
    if i < apps.len() {
        assert(goes_by(apps[i], a) == goes_by(apps[i], b)) by {
            if goes_by(apps[i], a) {
                let k = choose|k: int|
                    0 <= k < apps[i].process_names.len() && ascii_lowered(
                        #[trigger] apps[i].process_names[k],
                    ) == ascii_lowered(a);
                assert(ascii_lowered(apps[i].process_names[k]) == ascii_lowered(b));
            }
            if goes_by(apps[i], b) {
                let k = choose|k: int|
                    0 <= k < apps[i].process_names.len() && ascii_lowered(
                        #[trigger] apps[i].process_names[k],
                    ) == ascii_lowered(b);
                assert(ascii_lowered(apps[i].process_names[k]) == ascii_lowered(a));
            }
        }
        lemma_first_alike(apps, a, b, i + 1);
    }
}

/// A process is recognised however it is spelled: names that differ in case alone, that of
/// their extension included, belong to the same application, if any.
pub proof fn spelling_does_not_matter(a: Text, b: Text)
    requires
        ascii_lowered(a) == ascii_lowered(b),
    ensures
        owner_of(a) == owner_of(b),
{
    assert(ascii_lowered(a).len() == a.len() && ascii_lowered(b).len() == b.len());
    assert(ascii_lowered(bare_name(a)) =~= ascii_lowered(bare_name(b))) by {
        assert forall|i: int| 0 <= i < a.len() implies ascii_lower(#[trigger] a[i]) == ascii_lower(
            b[i],
        ) by {
            assert(ascii_lowered(a)[i] == ascii_lower(a[i]));
            assert(ascii_lowered(b)[i] == ascii_lower(b[i]));
        }
        reveal_strlit(".exe");
    }
    lemma_first_alike(registry(), bare_name(a), bare_name(b), 0);
}

/// A name is recognised with the `.exe` that the OS puts behind it, however that is spelled, as
/// it is without it.
pub proof fn the_extension_does_not_matter(name: Text, extension: Text)
    requires
        bare_name(name) == name,
        ascii_lowered(extension) == ".exe"@,
    ensures
        owner_of(name + extension) == owner_of(name),
{
    reveal_strlit(".exe");
    let n = name.len() as int;
    assert(ascii_lowered(extension).len() == extension.len());
    assert(ascii_lowered(name + extension).subrange(n, n + 4) =~= ascii_lowered(extension));
    assert((name + extension).take(n) =~= name);
}

} // verus!
