//! Deciding what a takeover has to do, without doing any of it.
//!
//! Every judgement in a takeover lives here as a pure function over a described situation:
//! which channels are foreign-controlled, which applications are running, and what is still
//! alive after we asked them to stop. Execution elsewhere is then a thin loop that cannot make
//! a decision of its own.
use crate::contention::{running_views, Running, RunningView};
use crate::hal::ChannelControl;
use crate::known::Role;
use crate::text::{decimal, digits, joined, list_of, listed, texts, Text};
use vstd::prelude::*;

verus! {

/// A channel as the hardware currently describes it.
#[derive(Debug, Clone, PartialEq, Eq)]
pub struct ChannelSituation {
    pub id: String,
    pub label: String,
    pub control: ChannelControl,
}

/// Everything a takeover decision is made from.
#[derive(Debug, Clone, PartialEq, Eq)]
pub struct Situation {
    pub channels: Vec<ChannelSituation>,
    pub apps: Vec<Running>,
}

/// Why a takeover cannot proceed.
#[derive(Debug, Clone, PartialEq, Eq)]
pub enum Blocker {
    /// A rival controller is still running. Handing channels back to firmware now would start
    /// a fight: we set the mode, it sets manual again.
    ControllerStillRunning { names: Vec<String> },
}

/// What a blocker says to a person, who has to know whom to close.
pub open spec fn blocker_message(names: Seq<Text>) -> Text {
    listed(names, ", "@, names.len())
        + " is still running. Handing these channels back now would put them straight into manual again and the two programs would fight over them."@
}

impl Blocker {
    /// What this says to a person.
    pub fn message(&self) -> (r: String)
        ensures
            r@ == blocker_message(texts(self->names@)),
    {
        match self {
            Blocker::ControllerStillRunning { names } => joined(
                list_of(names, ", ").as_str(),
                " is still running. Handing these channels back now would put them straight into manual again and the two programs would fight over them.",
            ),
        }
    }
}

/// What a takeover should do about the situation it found.
#[derive(Debug, Clone, PartialEq, Eq)]
pub struct Plan {
    /// Rival controllers that must stand down before we can drive anything.
    pub stop: Vec<Running>,
    /// Applications that can stay: they read the bus but do not drive fans.
    pub coexist: Vec<Running>,
    /// Channels under foreign manual control, which need returning to firmware or taking over
    /// by us. Left alone, nothing responds to temperature on them.
    pub strand: Vec<String>,
    /// Channels the firmware is already handling. Nothing to do.
    pub firmware: Vec<String>,
    /// Channels we already hold.
    pub ours: Vec<String>,
    /// Channels whose control we could not determine.
    pub unknown: Vec<String>,
}

impl Default for Plan {
    fn default() -> (r: Plan)
        ensures
            r.stop@.len() == 0,
            r.coexist@.len() == 0,
            r.strand@.len() == 0,
            r.firmware@.len() == 0,
            r.ours@.len() == 0,
            r.unknown@.len() == 0,
    {
        Plan {
            stop: Vec::new(),
            coexist: Vec::new(),
            strand: Vec::new(),
            firmware: Vec::new(),
            ours: Vec::new(),
            unknown: Vec::new(),
        }
    }
}

impl Plan {
    /// Whether anything needs doing at all: nothing does where nobody has to stop and no
    /// channel is stranded.
    pub fn is_noop(&self) -> (r: bool)
        ensures
            r == (self.stop@.len() == 0 && self.strand@.len() == 0),
    {
        self.stop.len() == 0 && self.strand.len() == 0
    }
}

/// The channels among the first `n` under one kind of control, as they are listed.
pub open spec fn under(channels: Seq<ChannelSituation>, control: ChannelControl, n: nat) -> Seq<
    Text,
>
    decreases n,
{
    if n == 0 {
        Seq::empty()
    } else {
        let before = under(channels, control, (n - 1) as nat);
        if channels[n - 1].control == control {
            before.push(channels[n - 1].id@)
        } else {
            before
        }
    }
}

/// The applications among the first `n` that control fans, or those that do not, as they are
/// listed.
pub open spec fn controlling(apps: Seq<RunningView>, controllers: bool, n: nat) -> Seq<RunningView>
    decreases n,
{
    if n == 0 {
        Seq::empty()
    } else {
        let before = controlling(apps, controllers, (n - 1) as nat);
        if (apps[n - 1].app.role is Controller) == controllers {
            before.push(apps[n - 1])
        } else {
            before
        }
    }
}

fn note_channel(list: &mut Vec<String>, id: &String)
    ensures
        texts(final(list)@) == texts(old(list)@).push(id@),
{
    let ghost before = texts(list@);
    list.push(id.clone());
    assert(texts(list@) =~= before.push(id@));
}

fn note_app(list: &mut Vec<Running>, app: &Running)
    ensures
        running_views(final(list)@) == running_views(old(list)@).push(app@),
{
    let ghost before = running_views(list@);
    let again = app.copy();
    list.push(again);
    assert(running_views(list@) =~= before.push(app@));
}

/// Works out what the situation calls for. Only a controller has to go: a monitor shares the
/// bus perfectly well.
pub fn plan(situation: &Situation) -> (r: Plan)
    ensures
        ({
            let channels = situation.channels@;
            let n = channels.len();
            &&& texts(r.firmware@) == under(channels, ChannelControl::Firmware, n)
            &&& texts(r.ours@) == under(channels, ChannelControl::Ours, n)
            &&& texts(r.strand@) == under(channels, ChannelControl::Foreign, n)
            &&& texts(r.unknown@) == under(channels, ChannelControl::Unknown, n)
        }),
        ({
            let apps = running_views(situation.apps@);
            &&& running_views(r.stop@) == controlling(apps, true, apps.len())
            &&& running_views(r.coexist@) == controlling(apps, false, apps.len())
        }),
{
    let mut plan = Plan::default();
    let n: usize = situation.channels.len();
    let ghost channels = situation.channels@;
    assert(texts(plan.firmware@) =~= Seq::empty());
    assert(texts(plan.ours@) =~= Seq::empty());
    assert(texts(plan.strand@) =~= Seq::empty());
    assert(texts(plan.unknown@) =~= Seq::empty());
    for i in 0..n
        invariant
            n == situation.channels@.len(),
            channels == situation.channels@,
            texts(plan.firmware@) == under(channels, ChannelControl::Firmware, i as nat),
            texts(plan.ours@) == under(channels, ChannelControl::Ours, i as nat),
            texts(plan.strand@) == under(channels, ChannelControl::Foreign, i as nat),
            texts(plan.unknown@) == under(channels, ChannelControl::Unknown, i as nat),
            plan.stop@.len() == 0,
            plan.coexist@.len() == 0,
    {
        let channel = &situation.channels[i];
        match channel.control {
            ChannelControl::Firmware => note_channel(&mut plan.firmware, &channel.id),
            ChannelControl::Ours => note_channel(&mut plan.ours, &channel.id),
            ChannelControl::Foreign => note_channel(&mut plan.strand, &channel.id),
            ChannelControl::Unknown => note_channel(&mut plan.unknown, &channel.id),
        }
    }
    let m: usize = situation.apps.len();
    let ghost apps = running_views(situation.apps@);
    assert(running_views(plan.stop@) =~= Seq::empty());
    assert(running_views(plan.coexist@) =~= Seq::empty());
    for i in 0..m
        invariant
            m == situation.apps@.len(),
            n == situation.channels@.len(),
            channels == situation.channels@,
            apps == running_views(situation.apps@),
            texts(plan.firmware@) == under(channels, ChannelControl::Firmware, n as nat),
            texts(plan.ours@) == under(channels, ChannelControl::Ours, n as nat),
            texts(plan.strand@) == under(channels, ChannelControl::Foreign, n as nat),
            texts(plan.unknown@) == under(channels, ChannelControl::Unknown, n as nat),
            running_views(plan.stop@) == controlling(apps, true, i as nat),
            running_views(plan.coexist@) == controlling(apps, false, i as nat),
    {
        let app = &situation.apps[i];
        assert(apps[i as int] == app@);
        match app.app.role {
            Role::Controller => note_app(&mut plan.stop, app),
            Role::Monitor => note_app(&mut plan.coexist, app),
            Role::Vendor => note_app(&mut plan.coexist, app),
        }
    }
    plan
}

/// How a running application is named to a person.
pub open spec fn named(r: RunningView) -> Text {
    r.app.name + " (pid "@ + digits(r.pid as nat) + ")"@
}

/// The names of the first `n` of some applications.
pub open spec fn names_of(apps: Seq<RunningView>) -> Seq<Text> {
    Seq::new(apps.len(), |i: int| named(apps[i]))
}

/// Whether channels may be handed back to firmware, given who is still alive: every rival
/// controller is in the way, and nothing else is.
///
/// The caller is responsible for the list being *fresh*.
pub fn hand_back_blocked_by(alive: &Vec<Running>) -> (r: Option<Blocker>)
    ensures
        ({
            let apps = running_views(alive@);
            let rivals = controlling(apps, true, apps.len());
            match r {
                Some(blocker) => rivals.len() > 0 && texts(blocker->names@) == names_of(rivals),
                None => rivals.len() == 0,
            }
        }),
{
    let mut names: Vec<String> = Vec::new();
    let n: usize = alive.len();
    let ghost apps = running_views(alive@);
    assert(texts(names@) =~= names_of(controlling(apps, true, 0)));
    for i in 0..n
        invariant
            n == alive@.len(),
            apps == running_views(alive@),
            texts(names@) == names_of(controlling(apps, true, i as nat)),
    {
        let r = &alive[i];
        assert(apps[i as int] == r@);
        if r.app.role == Role::Controller {
            let ghost before = texts(names@);
            let ghost rivals = controlling(apps, true, i as nat);
            let name = joined(
                joined(
                    joined(r.app.name.as_str(), " (pid ").as_str(),
                    decimal(r.pid as u64).as_str(),
                ).as_str(),
                ")",
            );
            let ghost view = name@;
            names.push(name);
            assert(texts(names@) =~= before.push(view));
            assert(names_of(rivals.push(apps[i as int])) =~= names_of(rivals).push(view));
        }
    }
    assert(names@.len() == texts(names@).len());
    if names.len() == 0 {
        None
    } else {
        Some(Blocker::ControllerStillRunning { names })
    }
}

// --- Laws ----------------------------------------------------------------------------------------

/// Every channel is in exactly one of the four lists of a plan: none is lost, and an unknown
/// one is not quietly folded into "fine".
pub proof fn every_channel_is_planned_for(channels: Seq<ChannelSituation>, n: nat)
    requires
        n <= channels.len(),
    ensures
        under(channels, ChannelControl::Firmware, n).len() + under(
            channels,
            ChannelControl::Ours,
            n,
        ).len() + under(channels, ChannelControl::Foreign, n).len() + under(
            channels,
            ChannelControl::Unknown,
            n,
        ).len() == n,
        forall|i: int|
            0 <= i < n ==> under(channels, (#[trigger] channels[i]).control, n).contains(
                channels[i].id@,
            ),
    decreases n,
{
    if n > 0 {
        let m = (n - 1) as nat;
        every_channel_is_planned_for(channels, m);
        assert forall|i: int| 0 <= i < n implies under(
            channels,
            (#[trigger] channels[i]).control,
            n,
        ).contains(channels[i].id@) by {
            let control = channels[i].control;
            let before = under(channels, control, m);
            if i < m {
                let k = choose|k: int| 0 <= k < before.len() && before[k] == channels[i].id@;
                assert(under(channels, control, n)[k] == channels[i].id@);
            } else {
                assert(under(channels, control, n)[before.len() as int] == channels[i].id@);
            }
        }
    }
}

/// Handing channels back is blocked exactly while a controller is alive; monitors and vendor
/// software never block it.
pub proof fn only_controllers_block(apps: Seq<RunningView>, n: nat)
    requires
        n <= apps.len(),
    ensures
        controlling(apps, true, n).len() > 0 <==> exists|i: int|
            0 <= i < n && (#[trigger] apps[i]).app.role is Controller,
    decreases n,
{
    if n > 0 {
        only_controllers_block(apps, (n - 1) as nat);
        if apps[n - 1].app.role is Controller {
            assert(apps[n - 1].app.role is Controller);
        }
    }
}

} // verus!
