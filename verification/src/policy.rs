//! Failsafe policy, and the rule that turns an evaluated tick into hardware writes.
use crate::hal::{ChannelId, Event, OutputChannel};
use crate::ordmap::{ascending, Key, OrdMap};
use crate::scalar::{order_is_by_value, whole, whole_is_exact, Scalar};
use crate::text::Text;
use crate::tick::TickResult;
use crate::units::Value;
use vstd::arithmetic::power2::{lemma_pow2_pos, pow2};
use vstd::prelude::*;

verus! {

/// What to do with a channel when it cannot be commanded confidently.
///
/// Note what is *not* an option: holding the last commanded value. A stale duty from before
/// a sensor died looks like control and is not.
#[derive(Debug, Clone, Copy, PartialEq)]
pub enum FailsafeAction {
    /// Restore the configuration captured when the channel was acquired. The default: the
    /// firmware's own curve is the most reliable thing left once we are gone.
    RestoreFirmware,
    /// Drive a fixed duty. Used when the backend cannot restore firmware control.
    FixedDuty(Scalar),
}

/// Per-channel safety configuration.
#[derive(Debug, Clone, Copy, PartialEq)]
pub struct ChannelPolicy {
    /// What to do when this channel faults, or when we are shutting down.
    pub failsafe: FailsafeAction,
    /// Duty this channel may never be driven below while under normal control.
    pub floor_duty: Scalar,
}

/// The policy of a channel nobody has configured: handed straight back, no floor.
pub open spec fn unconfigured() -> ChannelPolicy {
    ChannelPolicy { failsafe: FailsafeAction::RestoreFirmware, floor_duty: whole(0) }
}

impl Default for ChannelPolicy {
    fn default() -> (r: ChannelPolicy)
        ensures
            r == unconfigured(),
    {
        ChannelPolicy { failsafe: FailsafeAction::RestoreFirmware, floor_duty: Scalar::whole(0) }
    }
}

/// The resolved safety policy for every channel we control.
#[derive(Debug)]
pub struct SafetyPolicy {
    channels: OrdMap<ChannelId, ChannelPolicy>,
    /// Applied to a channel with no explicit entry. Unknown channels must still fail safe.
    default: ChannelPolicy,
}

/// A policy, as contracts speak of it: its channels in order, and what each is given.
#[verifier::ext_equal]
pub struct PolicyView {
    pub names: Seq<Text>,
    pub channels: Map<Text, ChannelPolicy>,
    pub default: ChannelPolicy,
}

impl View for SafetyPolicy {
    type V = PolicyView;

    closed spec fn view(&self) -> PolicyView {
        PolicyView {
            names: self.channels.names(),
            channels: self.channels@,
            default: self.default,
        }
    }
}

impl PolicyView {
    /// What every policy satisfies: its names are its channels, each once, in order.
    pub open spec fn wf(self) -> bool {
        &&& ascending::<String>(self.names)
        &&& self.names.no_duplicates()
        &&& forall|c: Text| #[trigger] self.channels.dom().contains(c) <==> self.names.contains(c)
    }

    /// What a channel is given.
    pub open spec fn of(self, channel: Text) -> ChannelPolicy {
        if self.channels.dom().contains(channel) {
            self.channels[channel]
        } else {
            self.default
        }
    }
}

impl SafetyPolicy {
    /// The policy is well-formed.
    #[verifier::type_invariant]
    pub closed spec fn wf(&self) -> bool {
        self@.wf()
    }

    /// What being well-formed means.
    pub proof fn lemma_wf(&self)
        requires
            self.wf(),
        ensures
            self@.wf(),
    {
    }

    /// The policy that covers nothing explicitly.
    pub fn new() -> (r: SafetyPolicy)
        ensures
            r@.channels == Map::<Text, ChannelPolicy>::empty(),
            r@.names == Seq::<Text>::empty(),
            r@.default == unconfigured(),
            r@.wf(),
    {
        SafetyPolicy { channels: OrdMap::new(), default: ChannelPolicy::default() }
    }

    /// This policy, with a channel's entry set.
    pub fn with_channel(self, channel: &str, policy: ChannelPolicy) -> (r: SafetyPolicy)
        ensures
            r@.channels == self@.channels.insert(channel@, policy),
            r@.default == self@.default,
            r@.wf(),
    {
        let mut channels = self.channels;
        channels.insert(channel.to_owned(), policy);
        proof {
            use_type_invariant(&channels);
            channels.lemma_wf();
        }
        SafetyPolicy { channels, default: self.default }
    }

    /// What a channel is given.
    pub fn for_channel(&self, channel: &ChannelId) -> (r: ChannelPolicy)
        ensures
            r == self@.of(channel@),
    {
        match self.channels.get(channel) {
            Some(p) => *p,
            None => self.default,
        }
    }

    /// This policy, with an entry for a channel, without disturbing an existing one.
    ///
    /// Called the moment a channel is acquired: a channel that is held but has no entry
    /// would be skipped every tick.
    pub fn ensure_channel(&mut self, channel: ChannelId)
        ensures
            final(self)@.channels == if old(self)@.channels.dom().contains(channel@) {
                old(self)@.channels
            } else {
                old(self)@.channels.insert(channel@, unconfigured())
            },
            final(self)@.default == old(self)@.default,
            final(self)@.wf(),
    {
        proof {
            use_type_invariant(&*self);
        }
        if !self.channels.contains_key(&channel) {
            let mut whole_policy = SafetyPolicy::new();
            std::mem::swap(&mut whole_policy, self);
            let SafetyPolicy { mut channels, default } = whole_policy;
            channels.insert(channel, ChannelPolicy::default());
            proof {
                use_type_invariant(&channels);
                channels.lemma_wf();
            }
            *self = SafetyPolicy { channels, default };
        }
    }

    /// Every channel with an explicit policy, in order.
    pub fn channels(&self) -> (r: Vec<ChannelId>)
        ensures
            name_views(r@) == self@.names,
            self@.wf(),
    {
        proof {
            use_type_invariant(self);
        }
        keys_of(&self.channels)
    }
}

impl Default for SafetyPolicy {
    fn default() -> (r: SafetyPolicy)
        ensures
            r@.channels == Map::<Text, ChannelPolicy>::empty(),
            r@.default == unconfigured(),
    {
        SafetyPolicy::new()
    }
}

/// What a list of names says.
pub open spec fn name_views(names: Seq<String>) -> Seq<Text> {
    Seq::new(names.len(), |i: int| names[i]@)
}

/// The keys of a map, in order.
pub fn keys_of<V>(map: &OrdMap<String, V>) -> (r: Vec<String>)
    ensures
        name_views(r@) == map.names(),
{
    let mut out: Vec<String> = Vec::new();
    let n: usize = map.len();
    for i in 0..n
        invariant
            n == map.names().len(),
            name_views(out@) == map.names().take(i as int),
            out@.len() == i,
    {
        out.push(map.key_at(i).clone());
        assert(name_views(out@) =~= map.names().take(i + 1));
    }
    assert(map.names().take(n as int) =~= map.names());
    out
}

/// Outcome of applying one tick to hardware.
#[derive(Debug)]
pub struct Applied {
    /// Channels driven from the graph, and the duty actually written.
    pub commanded: OrdMap<ChannelId, Scalar>,
    /// Channels put into their failsafe this tick.
    pub failsafed: OrdMap<ChannelId, FailsafeAction>,
    /// Channels whose hardware write returned an error.
    pub write_errors: Vec<ChannelId>,
}

/// An outcome, as contracts speak of it.
#[verifier::ext_equal]
pub struct AppliedView {
    pub commanded: Map<Text, Scalar>,
    pub failsafed: Map<Text, FailsafeAction>,
    pub write_errors: Seq<Text>,
}

impl View for Applied {
    type V = AppliedView;

    open spec fn view(&self) -> AppliedView {
        AppliedView {
            commanded: self.commanded@,
            failsafed: self.failsafed@,
            write_errors: name_views(self.write_errors@),
        }
    }
}

/// Nothing applied yet.
pub open spec fn nothing_applied() -> AppliedView {
    AppliedView { commanded: Map::empty(), failsafed: Map::empty(), write_errors: Seq::empty() }
}

impl AppliedView {
    /// Whether a channel was dealt with: driven, put into its failsafe, or reported.
    pub open spec fn accounts_for(self, channel: Text) -> bool {
        self.commanded.dom().contains(channel) || self.failsafed.dom().contains(channel)
            || self.write_errors.contains(channel)
    }
}

impl Applied {
    fn new() -> (r: Applied)
        ensures
            r@ == nothing_applied(),
    {
        let r = Applied {
            commanded: OrdMap::new(),
            failsafed: OrdMap::new(),
            write_errors: Vec::new(),
        };
        assert(r@ =~= nothing_applied());
        r
    }

    fn fail(&mut self, channel: ChannelId)
        ensures
            final(self)@ == (AppliedView {
                write_errors: old(self)@.write_errors.push(channel@),
                ..old(self)@
            }),
    {
        let ghost before = self@;
        self.write_errors.push(channel);
        assert(self@.write_errors =~= before.write_errors.push(channel@));
    }
}

// --- What is written ---------------------------------------------------------------------------

/// Writes in progress: what they came to, and the requests made so far.
#[verifier::ext_equal]
pub struct Run {
    pub applied: AppliedView,
    pub events: Seq<Event>,
}

/// Before the first write.
pub open spec fn idle() -> Run {
    Run { applied: nothing_applied(), events: Seq::empty() }
}

/// Which of some requests succeeded.
pub open spec fn successes(events: Seq<Event>) -> Seq<bool> {
    events.map_values(|e: Event| e.succeeded())
}

/// The failsafe that is actually possible: full duty on backends that cannot restore.
/// Releasing such a channel would leave the chip in manual mode with nobody driving it.
pub open spec fn possible(action: FailsafeAction, can_restore: bool) -> FailsafeAction {
    if action is RestoreFirmware && !can_restore {
        FailsafeAction::FixedDuty(whole(100))
    } else {
        action
    }
}

/// The duty a command comes to: never below the channel's floor, always a percentage.
pub open spec fn floored(policy: ChannelPolicy, duty: Scalar) -> Scalar {
    duty.larger(policy.floor_duty).confined(whole(0), whole(100))
}

/// One command written. The `k`-th write of a run succeeds if `oks[k]`.
pub open spec fn command_one(
    policy: PolicyView,
    faulted: Set<Text>,
    run: Run,
    channel: Text,
    value: Value,
    oks: Seq<bool>,
) -> Run {
    if faulted.contains(channel) {
        run
    } else {
        let duty = floored(policy.of(channel), value.scalar);
        let ok = oks[run.events.len() as int];
        Run {
            applied: if ok {
                AppliedView {
                    commanded: run.applied.commanded.insert(channel, duty),
                    ..run.applied
                }
            } else {
                AppliedView {
                    write_errors: run.applied.write_errors.push(channel),
                    ..run.applied
                }
            },
            events: run.events.push(Event::SetDuty { channel, duty, ok }),
        }
    }
}

/// A tick's results in the order they are written.
#[verifier::ext_equal]
pub struct Outcome {
    pub names: Seq<Text>,
    pub commands: Map<Text, Value>,
    pub faulted_names: Seq<Text>,
    pub faulted: Set<Text>,
}

/// A tick's results in the order they are written.
pub open spec fn outcome_of(tick: TickResult) -> Outcome {
    Outcome {
        names: tick.commands.names(),
        commands: tick.commands@,
        faulted_names: tick.faulted_channels.names(),
        faulted: tick.faulted_channels@.dom(),
    }
}

/// The first `n` commands written.
pub open spec fn commands_run(policy: PolicyView, tick: Outcome, oks: Seq<bool>, n: nat) -> Run
    decreases n,
{
    if n == 0 {
        idle()
    } else {
        let channel = tick.names[n - 1];
        command_one(
            policy,
            tick.faulted,
            commands_run(policy, tick, oks, (n - 1) as nat),
            channel,
            tick.commands[channel],
            oks,
        )
    }
}

/// The request a failsafe makes.
pub open spec fn failsafe_event(channel: Text, action: FailsafeAction, ok: bool) -> Event {
    match action {
        FailsafeAction::RestoreFirmware => Event::Release { channel, ok },
        FailsafeAction::FixedDuty(duty) => Event::SetDuty { channel, duty, ok },
    }
}

/// One channel put into its failsafe, unless it is already.
pub open spec fn failsafe_one(
    policy: PolicyView,
    can_restore: bool,
    run: Run,
    channel: Text,
    oks: Seq<bool>,
) -> Run {
    if run.applied.failsafed.dom().contains(channel) {
        run
    } else {
        let action = possible(policy.of(channel).failsafe, can_restore);
        let ok = oks[run.events.len() as int];
        Run {
            applied: if ok {
                AppliedView {
                    failsafed: run.applied.failsafed.insert(channel, action),
                    ..run.applied
                }
            } else {
                AppliedView {
                    write_errors: run.applied.write_errors.push(channel),
                    ..run.applied
                }
            },
            events: run.events.push(failsafe_event(channel, action, ok)),
        }
    }
}

/// The first `n` channels of a list put into their failsafe.
pub open spec fn failsafe_run(
    policy: PolicyView,
    can_restore: bool,
    start: Run,
    list: Seq<Text>,
    oks: Seq<bool>,
    n: nat,
) -> Run
    decreases n,
{
    if n == 0 {
        start
    } else {
        failsafe_one(
            policy,
            can_restore,
            failsafe_run(policy, can_restore, start, list, oks, (n - 1) as nat),
            list[n - 1],
            oks,
        )
    }
}

/// The names that are not commanded.
pub open spec fn uncommanded(names: Seq<Text>, commanded: Map<Text, Scalar>, n: nat) -> Seq<Text>
    decreases n,
{
    if n == 0 {
        Seq::empty()
    } else {
        let before = uncommanded(names, commanded, (n - 1) as nat);
        if commanded.dom().contains(names[n - 1]) {
            before
        } else {
            before.push(names[n - 1])
        }
    }
}

/// A tick written to hardware: commands first, then the failsafe of every channel the policy
/// covers that was not commanded and of every channel that faulted.
pub open spec fn applied_run(
    policy: PolicyView,
    tick: Outcome,
    can_restore: bool,
    oks: Seq<bool>,
) -> Run {
    let commanded = commands_run(policy, tick, oks, tick.names.len());
    let list = uncommanded(policy.names, commanded.applied.commanded, policy.names.len())
        + tick.faulted_names;
    failsafe_run(policy, can_restore, commanded, list, oks, list.len())
}

/// One channel let go of: its failsafe, or full duty when that fails.
pub open spec fn breath_one(
    policy: PolicyView,
    can_restore: bool,
    run: Run,
    channel: Text,
    oks: Seq<bool>,
) -> Run {
    let action = possible(policy.of(channel).failsafe, can_restore);
    let k = run.events.len() as int;
    let first = run.events.push(failsafe_event(channel, action, oks[k]));
    if oks[k] {
        Run {
            applied: AppliedView {
                failsafed: run.applied.failsafed.insert(channel, action),
                ..run.applied
            },
            events: first,
        }
    } else {
        // A failed restore is the worst case: the chip may still be in manual mode. Full
        // duty is tried before giving up on the channel.
        Run {
            applied: if oks[k + 1] {
                AppliedView {
                    failsafed: run.applied.failsafed.insert(
                        channel,
                        FailsafeAction::FixedDuty(whole(100)),
                    ),
                    ..run.applied
                }
            } else {
                AppliedView {
                    write_errors: run.applied.write_errors.push(channel),
                    ..run.applied
                }
            },
            events: first.push(Event::SetDuty { channel, duty: whole(100), ok: oks[k + 1] }),
        }
    }
}

/// The first `n` channels of the policy let go of.
pub open spec fn breath_run(policy: PolicyView, can_restore: bool, oks: Seq<bool>, n: nat) -> Run
    decreases n,
{
    if n == 0 {
        idle()
    } else {
        breath_one(
            policy,
            can_restore,
            breath_run(policy, can_restore, oks, (n - 1) as nat),
            policy.names[n - 1],
            oks,
        )
    }
}

// --- Runs depend on past writes alone ------------------------------------------------------------

/// Whether two lists of outcomes agree on the first `n`.
spec fn agree(a: Seq<bool>, b: Seq<bool>, n: nat) -> bool {
    forall|i: int| 0 <= i < n ==> a[i] == b[i]
}

proof fn lemma_commands_stable(
    policy: PolicyView,
    tick: Outcome,
    a: Seq<bool>,
    b: Seq<bool>,
    n: nat,
)
    requires
        agree(a, b, commands_run(policy, tick, a, n).events.len()),
    ensures
        commands_run(policy, tick, a, n) == commands_run(policy, tick, b, n),
    decreases n,
{
    if n > 0 {
        lemma_commands_stable(policy, tick, a, b, (n - 1) as nat);
    }
}

proof fn lemma_failsafe_stable(
    policy: PolicyView,
    can_restore: bool,
    start: Run,
    list: Seq<Text>,
    a: Seq<bool>,
    b: Seq<bool>,
    n: nat,
)
    requires
        agree(a, b, failsafe_run(policy, can_restore, start, list, a, n).events.len()),
    ensures
        failsafe_run(policy, can_restore, start, list, a, n) == failsafe_run(
            policy,
            can_restore,
            start,
            list,
            b,
            n,
        ),
        failsafe_run(policy, can_restore, start, list, a, n).events.len() >= start.events.len(),
    decreases n,
{
    if n > 0 {
        lemma_failsafe_stable(policy, can_restore, start, list, a, b, (n - 1) as nat);
    }
}

proof fn lemma_breath_stable(policy: PolicyView, can_restore: bool, a: Seq<bool>, b: Seq<bool>, n: nat)
    requires
        agree(a, b, breath_run(policy, can_restore, a, n).events.len()),
    ensures
        breath_run(policy, can_restore, a, n) == breath_run(policy, can_restore, b, n),
    decreases n,
{
    if n > 0 {
        lemma_breath_stable(policy, can_restore, a, b, (n - 1) as nat);
    }
}

fn resolve(action: FailsafeAction, can_restore: bool) -> (r: FailsafeAction)
    ensures
        r == possible(action, can_restore),
{
    match action {
        FailsafeAction::RestoreFirmware => {
            if can_restore {
                FailsafeAction::RestoreFirmware
            } else {
                FailsafeAction::FixedDuty(Scalar::whole(100))
            }
        },
        FailsafeAction::FixedDuty(duty) => FailsafeAction::FixedDuty(duty),
    }
}

fn perform<B: OutputChannel>(backend: &mut B, channel: &ChannelId, action: FailsafeAction) -> (ok: bool)
    ensures
        final(backend).log() == old(backend).log().push(failsafe_event(channel@, action, ok)),
        final(backend).restores() == old(backend).restores(),
        final(backend).last_read() == old(backend).last_read(),
{
    match action {
        FailsafeAction::RestoreFirmware => backend.release(channel).is_ok(),
        FailsafeAction::FixedDuty(duty) => backend.set_duty(channel, duty).is_ok(),
    }
}

/// The requests a call added to a backend's log.
pub open spec fn added(before: Seq<Event>, after: Seq<Event>) -> Seq<Event> {
    after.skip(before.len() as int)
}

proof fn lemma_added(before: Seq<Event>, events: Seq<Event>)
    ensures
        added(before, before + events) == events,
{
    assert(added(before, before + events) =~= events);
}

/// Writes one evaluated tick to hardware, enforcing the safety policy.
///
/// Every channel the policy knows about is accounted for on every tick: it is either
/// commanded from the graph or explicitly failsafed, or reported where the hardware refused.
pub fn apply_tick<B: OutputChannel>(
    tick: &TickResult,
    policy: &SafetyPolicy,
    backend: &mut B,
) -> (r: Applied)
    ensures
        ({
            let events = added(old(backend).log(), final(backend).log());
            let run = applied_run(
                policy@,
                outcome_of(*tick),
                old(backend).restores(),
                successes(events),
            );
            &&& final(backend).log() == old(backend).log() + events
            &&& events == run.events
            &&& r@ == run.applied
        }),
        final(backend).restores() == old(backend).restores(),
        final(backend).last_read() == old(backend).last_read(),
{
    let mut applied = Applied::new();
    let can_restore = backend.can_restore_firmware_control();
    let ghost start = backend.log();
    let ghost read = backend.last_read();
    let ghost restores = backend.restores();
    let ghost pv = policy@;
    let ghost out = outcome_of(*tick);
    let ghost mut run = idle();
    let n: usize = tick.commands.len();
    assert(start + Seq::<Event>::empty() =~= start);
    // Channels the graph produced a trustworthy value for, minus any that also faulted.
    for i in 0..n
        invariant
            n == out.names.len(),
            out == outcome_of(*tick),
            pv == policy@,
            backend.log() == start + run.events,
            backend.restores() == restores,
            backend.last_read() == read,
            run == commands_run(pv, out, successes(run.events), i as nat),
            applied@ == run.applied,
    {
        let channel = tick.commands.key_at(i);
        let value = *tick.commands.value_at(i);
        let ghost before = run;
        if !tick.faulted_channels.contains_key(channel) {
            let floor = policy.for_channel(channel).floor_duty;
            let duty = value.scalar.max(floor).clamp(Scalar::whole(0), Scalar::whole(100));
            let ok = backend.set_duty(channel, duty).is_ok();
            let ghost event = Event::SetDuty { channel: channel@, duty, ok };
            if ok {
                applied.commanded.insert(channel.clone(), duty);
            } else {
                applied.fail(channel.clone());
            }
            proof {
                run = Run { applied: applied@, events: before.events.push(event) };
                let a = successes(before.events);
                let b = successes(run.events);
                assert forall|k: int| 0 <= k < before.events.len() implies a[k] == b[k] by {
                    assert(run.events[k] == before.events[k]);
                }
                lemma_commands_stable(pv, out, a, b, i as nat);
                assert(b[before.events.len() as int] == ok);
                assert(start + run.events =~= (start + before.events).push(event));
                assert(run =~= command_one(pv, out.faulted, before, channel@, value, b));
            }
        }
    }
    let ghost commanded = run;
    // Everything else the policy covers gets its failsafe: channels the graph faulted, and
    // channels the graph does not mention at all.
    let names = policy.channels();
    let mut list: Vec<ChannelId> = Vec::new();
    let m: usize = names.len();
    assert(name_views(list@) =~= Seq::empty());
    for i in 0..m
        invariant
            m == names@.len(),
            name_views(names@) == pv.names,
            applied@ == commanded.applied,
            name_views(list@) == uncommanded(pv.names, commanded.applied.commanded, i as nat),
    {
        assert(pv.names[i as int] == names@[i as int]@);
        if !applied.commanded.contains_key(&names[i]) {
            let ghost before = name_views(list@);
            list.push(names[i].clone());
            assert(name_views(list@) =~= before.push(names@[i as int]@));
        }
    }
    let mut faulted = keys_of(&tick.faulted_channels);
    let ghost left = name_views(list@);
    let ghost list_before = list@;
    let ghost faulted_before = faulted@;
    list.append(&mut faulted);
    proof {
        assert(list@ =~= list_before + faulted_before);
        assert(name_views(list@) =~= left + out.faulted_names);
    }
    let ghost all = name_views(list@);
    let k: usize = list.len();
    for i in 0..k
        invariant
            k == list@.len(),
            all == name_views(list@),
            pv == policy@,
            backend.log() == start + run.events,
            backend.restores() == restores,
            backend.last_read() == read,
            run == failsafe_run(pv, can_restore, commanded, all, successes(run.events), i as nat),
            applied@ == run.applied,
            run.events.len() >= commanded.events.len(),
            forall|j: int| 0 <= j < commanded.events.len() ==> run.events[j] == commanded.events[j],
    {
        let channel = &list[i];
        assert(all[i as int] == channel@);
        let ghost before = run;
        if !applied.failsafed.contains_key(channel) {
            let action = resolve(policy.for_channel(channel).failsafe, can_restore);
            let ok = perform(backend, channel, action);
            let ghost event = failsafe_event(channel@, action, ok);
            if ok {
                applied.failsafed.insert(channel.clone(), action);
            } else {
                applied.fail(channel.clone());
            }
            proof {
                run = Run { applied: applied@, events: before.events.push(event) };
                let a = successes(before.events);
                let b = successes(run.events);
                assert forall|k2: int| 0 <= k2 < before.events.len() implies a[k2] == b[k2] by {
                    assert(run.events[k2] == before.events[k2]);
                }
                lemma_failsafe_stable(pv, can_restore, commanded, all, a, b, i as nat);
                assert(b[before.events.len() as int] == ok);
                assert(start + run.events =~= (start + before.events).push(event));
                assert(run =~= failsafe_one(pv, can_restore, before, channel@, b));
            }
        }
    }
    proof {
        let a = successes(commanded.events);
        let b = successes(run.events);
        assert forall|j: int| 0 <= j < commanded.events.len() implies a[j] == b[j] by {
            assert(run.events[j] == commanded.events[j]);
        }
        lemma_commands_stable(pv, out, a, b, n as nat);
        lemma_added(start, run.events);
    }
    applied
}

/// Puts every channel into its failsafe and lets go of the hardware.
///
/// This runs on the way out, so errors are counted, never propagated: there is nobody left
/// to handle them.
pub fn dying_breath<B: OutputChannel>(policy: &SafetyPolicy, backend: &mut B) -> (r: Applied)
    ensures
        ({
            let events = added(old(backend).log(), final(backend).log());
            let run = breath_run(
                policy@,
                old(backend).restores(),
                successes(events),
                policy@.names.len(),
            );
            &&& final(backend).log() == old(backend).log() + events
            &&& events == run.events
            &&& r@ == run.applied
        }),
        final(backend).restores() == old(backend).restores(),
        final(backend).last_read() == old(backend).last_read(),
{
    let mut applied = Applied::new();
    let can_restore = backend.can_restore_firmware_control();
    let ghost start = backend.log();
    let ghost read = backend.last_read();
    let ghost restores = backend.restores();
    let ghost pv = policy@;
    let ghost mut run = idle();
    let names = policy.channels();
    let n: usize = names.len();
    assert(start + Seq::<Event>::empty() =~= start);
    for i in 0..n
        invariant
            n == names@.len(),
            pv == policy@,
            name_views(names@) == pv.names,
            backend.log() == start + run.events,
            backend.restores() == restores,
            backend.last_read() == read,
            run == breath_run(pv, can_restore, successes(run.events), i as nat),
            applied@ == run.applied,
    {
        let channel = &names[i];
        assert(pv.names[i as int] == channel@);
        let ghost before = run;
        let action = resolve(policy.for_channel(channel).failsafe, can_restore);
        let ok = perform(backend, channel, action);
        let ghost event = failsafe_event(channel@, action, ok);
        let ghost mut events = before.events.push(event);
        assert(start + events =~= (start + before.events).push(event));
        let ghost mut second = false;
        if ok {
            applied.failsafed.insert(channel.clone(), action);
        } else {
            let full = Scalar::whole(100);
            let rescued = backend.set_duty(channel, full).is_ok();
            proof {
                second = rescued;
                let retry = Event::SetDuty { channel: channel@, duty: full, ok: rescued };
                assert(start + events.push(retry) =~= (start + events).push(retry));
                events = events.push(retry);
            }
            if rescued {
                applied.failsafed.insert(channel.clone(), FailsafeAction::FixedDuty(full));
            } else {
                applied.fail(channel.clone());
            }
        }
        proof {
            run = Run { applied: applied@, events };
            let a = successes(before.events);
            let b = successes(run.events);
            assert forall|k: int| 0 <= k < before.events.len() implies a[k] == b[k] by {
                assert(run.events[k] == before.events[k]);
            }
            lemma_breath_stable(pv, can_restore, a, b, i as nat);
            assert(run.events[before.events.len() as int] == event);
            assert(b[before.events.len() as int] == ok);
            if !ok {
                assert(b[before.events.len() as int + 1] == second);
            }
            assert(run =~= breath_one(pv, can_restore, before, channel@, b));
        }
    }
    proof {
        lemma_added(start, run.events);
    }
    applied
}

// --- Laws ------------------------------------------------------------------------------------------

proof fn lemma_pushed<A>(s: Seq<A>, x: A, y: A)
    ensures
        s.push(y).contains(x) <==> s.contains(x) || x == y,
{
    if s.contains(x) {
        let i = s.index_of(x);
        assert(s.push(y)[i] == x);
    }
    assert(s.push(y)[s.len() as int] == y);
    if s.push(y).contains(x) && x != y {
        let i = s.push(y).index_of(x);
        assert(s[i] == x);
    }
}

proof fn lemma_failsafe_covers(
    policy: PolicyView,
    can_restore: bool,
    start: Run,
    list: Seq<Text>,
    oks: Seq<bool>,
    n: nat,
    channel: Text,
)
    requires
        n <= list.len(),
    ensures
        start.applied.accounts_for(channel) ==> failsafe_run(
            policy,
            can_restore,
            start,
            list,
            oks,
            n,
        ).applied.accounts_for(channel),
        (exists|i: int| 0 <= i < n && #[trigger] list[i] == channel) ==> failsafe_run(
            policy,
            can_restore,
            start,
            list,
            oks,
            n,
        ).applied.accounts_for(channel),
        failsafe_run(policy, can_restore, start, list, oks, n).applied.commanded
            == start.applied.commanded,
    decreases n,
{
    if n > 0 {
        let m = (n - 1) as nat;
        lemma_failsafe_covers(policy, can_restore, start, list, oks, m, channel);
        let before = failsafe_run(policy, can_restore, start, list, oks, m);
        lemma_pushed(before.applied.write_errors, channel, list[n - 1]);
        lemma_pushed(before.applied.write_errors, list[n - 1], list[n - 1]);
        if exists|i: int| 0 <= i < n && #[trigger] list[i] == channel {
            let i = choose|i: int| 0 <= i < n && #[trigger] list[i] == channel;
            if i < n - 1 {
                assert(0 <= i < m && list[i] == channel);
            }
        }
    }
}

proof fn lemma_uncommanded(names: Seq<Text>, commanded: Map<Text, Scalar>, n: nat, channel: Text)
    requires
        n <= names.len(),
    ensures
        uncommanded(names, commanded, n).contains(channel) <==> !commanded.dom().contains(channel)
            && exists|i: int| 0 <= i < n && #[trigger] names[i] == channel,
    decreases n,
{
    if n > 0 {
        let m = (n - 1) as nat;
        lemma_uncommanded(names, commanded, m, channel);
        lemma_pushed(uncommanded(names, commanded, m), channel, names[n - 1]);
        if exists|i: int| 0 <= i < n && #[trigger] names[i] == channel {
            let i = choose|i: int| 0 <= i < n && #[trigger] names[i] == channel;
            if i < n - 1 {
                assert(0 <= i < m && names[i] == channel);
            }
        }
        if exists|i: int| 0 <= i < m && #[trigger] names[i] == channel {
            let i = choose|i: int| 0 <= i < m && #[trigger] names[i] == channel;
            assert(0 <= i < n && names[i] == channel);
        }
    }
}

/// Every channel the policy covers is, on every tick and whatever the hardware answers,
/// commanded, put into its failsafe or reported; and so is every channel that faulted.
pub proof fn every_policy_channel_is_accounted_for(
    policy: PolicyView,
    tick: Outcome,
    can_restore: bool,
    oks: Seq<bool>,
    channel: Text,
)
    requires
        policy.wf(),
        policy.channels.dom().contains(channel) || tick.faulted_names.contains(channel),
    ensures
        applied_run(policy, tick, can_restore, oks).applied.accounts_for(channel),
{
    let commanded = commands_run(policy, tick, oks, tick.names.len());
    let left = uncommanded(policy.names, commanded.applied.commanded, policy.names.len());
    let list = left + tick.faulted_names;
    lemma_uncommanded(policy.names, commanded.applied.commanded, policy.names.len(), channel);
    if policy.channels.dom().contains(channel) {
        let i = policy.names.index_of(channel);
        assert(policy.names[i] == channel);
        if !commanded.applied.commanded.dom().contains(channel) {
            let j = left.index_of(channel);
            assert(list[j] == channel);
        }
    }
    if tick.faulted_names.contains(channel) {
        let j = tick.faulted_names.index_of(channel);
        assert(list[left.len() + j] == channel);
    }
    lemma_failsafe_covers(policy, can_restore, commanded, list, oks, list.len(), channel);
}

proof fn lemma_commanded(policy: PolicyView, tick: Outcome, oks: Seq<bool>, n: nat, channel: Text)
    requires
        n <= tick.names.len(),
        commands_run(policy, tick, oks, n).applied.commanded.dom().contains(channel),
    ensures
        !tick.faulted.contains(channel),
        exists|i: int| 0 <= i < n && #[trigger] tick.names[i] == channel,
        commands_run(policy, tick, oks, n).applied.commanded[channel] == floored(
            policy.of(channel),
            tick.commands[channel].scalar,
        ),
    decreases n,
{
    if n > 0 {
        let m = (n - 1) as nat;
        if tick.names[n - 1] != channel || !commands_run(
            policy,
            tick,
            oks,
            n,
        ).applied.commanded.dom().contains(channel) || commands_run(policy, tick, oks, n)
            == commands_run(policy, tick, oks, m) || !oks[commands_run(
            policy,
            tick,
            oks,
            m,
        ).events.len() as int] {
            lemma_commanded(policy, tick, oks, m, channel);
            let i = choose|i: int| 0 <= i < m && #[trigger] tick.names[i] == channel;
            assert(0 <= i < n && tick.names[i] == channel);
        } else {
            assert(tick.names[n - 1] == channel);
        }
    }
}

/// A faulted channel is never driven from the graph: it is not left at a stale or computed
/// duty.
pub proof fn faulted_channels_are_not_commanded(
    policy: PolicyView,
    tick: Outcome,
    can_restore: bool,
    oks: Seq<bool>,
    channel: Text,
)
    requires
        tick.faulted.contains(channel),
    ensures
        !applied_run(policy, tick, can_restore, oks).applied.commanded.dom().contains(channel),
{
    let commanded = commands_run(policy, tick, oks, tick.names.len());
    let list = uncommanded(policy.names, commanded.applied.commanded, policy.names.len())
        + tick.faulted_names;
    lemma_failsafe_covers(policy, can_restore, commanded, list, oks, list.len(), channel);
    if commanded.applied.commanded.dom().contains(channel) {
        lemma_commanded(policy, tick, oks, tick.names.len(), channel);
    }
}

/// A commanded duty is a percentage, and no lower than the channel's floor.
pub proof fn the_floor_cannot_be_undercut(
    policy: PolicyView,
    tick: Outcome,
    can_restore: bool,
    oks: Seq<bool>,
    channel: Text,
)
    requires
        applied_run(policy, tick, can_restore, oks).applied.commanded.dom().contains(channel),
        tick.commands[channel].trustworthy(),
    ensures
        ({
            let duty = applied_run(policy, tick, can_restore, oks).applied.commanded[channel];
            let floor = policy.of(channel).floor_duty;
            &&& whole(0).at_most(duty)
            &&& duty.at_most(whole(100))
            &&& floor.at_most(whole(100)) ==> floor.at_most(duty)
        }),
{
    let commanded = commands_run(policy, tick, oks, tick.names.len());
    let list = uncommanded(policy.names, commanded.applied.commanded, policy.names.len())
        + tick.faulted_names;
    lemma_failsafe_covers(policy, can_restore, commanded, list, oks, list.len(), channel);
    lemma_commanded(policy, tick, oks, tick.names.len(), channel);
    whole_is_exact(0);
    whole_is_exact(100);
    lemma_pow2_pos(1074);
    order_is_by_value(whole(0), whole(100));
    assert(0 * pow2(1074) <= 100 * pow2(1074));
}

/// Every channel the policy covers is let go of, or reported where even full duty was
/// refused.
pub proof fn the_dying_breath_covers_every_channel(
    policy: PolicyView,
    can_restore: bool,
    oks: Seq<bool>,
    channel: Text,
)
    requires
        policy.wf(),
        policy.channels.dom().contains(channel),
    ensures
        breath_run(policy, can_restore, oks, policy.names.len()).applied.accounts_for(channel),
{
    let i = policy.names.index_of(channel);
    assert(policy.names[i] == channel);
    lemma_breath_covers(policy, can_restore, oks, policy.names.len(), i);
}

proof fn lemma_breath_covers(policy: PolicyView, can_restore: bool, oks: Seq<bool>, n: nat, i: int)
    requires
        0 <= i < n <= policy.names.len(),
    ensures
        breath_run(policy, can_restore, oks, n).applied.accounts_for(policy.names[i]),
    decreases n,
{
    let m = (n - 1) as nat;
    let before = breath_run(policy, can_restore, oks, m);
    lemma_pushed(before.applied.write_errors, policy.names[i], policy.names[n - 1]);
    if i < n - 1 {
        lemma_breath_covers(policy, can_restore, oks, m, i);
    }
}

/// A backend that cannot restore firmware control is never asked to release a channel whose
/// failsafe is to do so: it is driven at full duty instead.
pub proof fn nothing_is_released_that_cannot_be_restored(
    policy: PolicyView,
    oks: Seq<bool>,
    n: nat,
    k: int,
)
    requires
        n <= policy.names.len(),
        0 <= k < breath_run(policy, false, oks, n).events.len(),
    ensures
        !(breath_run(policy, false, oks, n).events[k] is Release),
    decreases n,
{
    if n > 0 {
        let m = (n - 1) as nat;
        if k < breath_run(policy, false, oks, m).events.len() {
            nothing_is_released_that_cannot_be_restored(policy, oks, m, k);
        }
    }
}

} // verus!
