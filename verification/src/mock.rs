//! A simulated thermal plant implementing the hardware traits.
//!
//! A first-order lumped thermal model: heat capacity, a fan-speed-dependent cooling
//! coefficient, and a transport delay between commanding a duty and the temperature
//! responding. The delay is what makes an over-aggressive curve hunt.
use crate::hal::{cannot_hand_back, Backend, ChannelId, ChannelInfo, Event, HalError, OutputChannel, SensorId, SensorInfo, SensorKind, SensorSource};
use crate::ordmap::OrdMap;
use crate::scalar::{whole, Scalar};
use crate::text::{same, Text};
use std::collections::VecDeque;
use vstd::prelude::*;

verus! {

/// Tunables for the simulated plant.
#[derive(Debug, Clone, Copy)]
pub struct PlantConfig {
    /// Ambient temperature the plant decays towards, in degrees Celsius.
    pub ambient_c: Scalar,
    /// Heat injected by the load, in degrees per second at full load with no cooling.
    pub heat_rate_c_per_s: Scalar,
    /// Cooling authority at full duty, as a fraction of the excess removed per second.
    pub cooling_coeff: Scalar,
    /// Cooling still present at zero duty: natural convection.
    pub passive_coeff: Scalar,
    /// Ticks between commanding a duty and the plant feeling it.
    pub transport_delay_ticks: usize,
    /// Fan speed at full duty.
    pub max_rpm: Scalar,
    /// Duty below which the fan stalls and reads 0 RPM.
    pub stall_duty: Scalar,
    /// Seconds per tick, used to scale the thermal integration.
    pub tick_seconds: Scalar,
}

/// Loosely the shape of a desktop CPU.
pub open spec fn desktop() -> PlantConfig {
    PlantConfig {
        ambient_c: whole(22),
        heat_rate_c_per_s: whole(9),
        cooling_coeff: whole(35).over(whole(100)),
        passive_coeff: whole(2).over(whole(100)),
        transport_delay_ticks: 8,
        max_rpm: whole(2000),
        stall_duty: whole(12),
        tick_seconds: whole(1).over(whole(10)),
    }
}

impl Default for PlantConfig {
    fn default() -> (r: PlantConfig)
        ensures
            r == desktop(),
    {
        PlantConfig {
            ambient_c: Scalar::whole(22),
            heat_rate_c_per_s: Scalar::whole(9),
            cooling_coeff: Scalar::whole(35).div(Scalar::whole(100)),
            passive_coeff: Scalar::whole(2).div(Scalar::whole(100)),
            transport_delay_ticks: 8,
            max_rpm: Scalar::whole(2000),
            stall_duty: Scalar::whole(12),
            tick_seconds: Scalar::whole(1).div(Scalar::whole(10)),
        }
    }
}

/// A simulated machine: one heat source, one fan, one temperature sensor.
pub struct MockBackend {
    config: PlantConfig,
    /// Current die temperature.
    temp_c: Scalar,
    /// Load fraction from 0 to 1.
    load: Scalar,
    /// Commanded duty, before the delay.
    commanded_duty: Scalar,
    /// Duties in flight through the transport delay.
    pipeline: VecDeque<Scalar>,
    /// Duty currently affecting the plant.
    effective_duty: Scalar,
    acquired: bool,
    /// Whether `release` was called.
    pub released: bool,
    log: Ghost<Seq<Event>>,
    read: Ghost<Result<Map<Text, Scalar>, HalError>>,
}

/// The plant, as contracts speak of it.
#[verifier::ext_equal]
pub struct PlantView {
    pub config: PlantConfig,
    pub temp_c: Scalar,
    pub load: Scalar,
    pub commanded_duty: Scalar,
    pub pipeline: Seq<Scalar>,
    pub effective_duty: Scalar,
    pub acquired: bool,
    pub released: bool,
}

impl View for MockBackend {
    type V = PlantView;

    closed spec fn view(&self) -> PlantView {
        PlantView {
            config: self.config,
            temp_c: self.temp_c,
            load: self.load,
            commanded_duty: self.commanded_duty,
            pipeline: self.pipeline@,
            effective_duty: self.effective_duty,
            acquired: self.acquired,
            released: self.released,
        }
    }
}

impl MockBackend {
    /// The one temperature sensor.
    pub const TEMP_SENSOR: &'static str = "mock/temp/cpu";

    /// The one tachometer.
    pub const RPM_SENSOR: &'static str = "mock/fan/1";

    /// The one output.
    pub const CHANNEL: &'static str = "mock/pwm/1";
}

/// A plant nothing has happened to: at ambient temperature, its delay line full of zeros.
pub open spec fn at_rest(config: PlantConfig) -> PlantView {
    PlantView {
        config,
        temp_c: config.ambient_c,
        load: whole(0),
        commanded_duty: whole(0),
        pipeline: Seq::new(config.transport_delay_ticks as nat, |i: int| whole(0)),
        effective_duty: whole(0),
        acquired: false,
        released: false,
    }
}

/// How much air moves: none below the stall duty, whatever was commanded.
pub open spec fn airflow(config: PlantConfig, duty: Scalar) -> Scalar {
    if duty.below(config.stall_duty) {
        whole(0)
    } else {
        duty.over(whole(100))
    }
}

/// The plant one tick later.
pub open spec fn stepped(p: PlantView) -> PlantView {
    let line = p.pipeline.push(p.commanded_duty);
    let felt = line[0];
    let heating = p.config.heat_rate_c_per_s.times(p.load);
    let cooling = p.config.passive_coeff.plus(
        p.config.cooling_coeff.times(airflow(p.config, felt)),
    ).times(p.temp_c.minus(p.config.ambient_c));
    let moved = p.temp_c.plus(heating.minus(cooling).times(p.config.tick_seconds));
    PlantView {
        pipeline: line.drop_first(),
        effective_duty: felt,
        temp_c: if moved.below(p.config.ambient_c) {
            p.config.ambient_c
        } else {
            moved
        },
        ..p
    }
}

/// What the tachometer reads.
pub open spec fn speed(p: PlantView) -> Scalar {
    if p.effective_duty.below(p.config.stall_duty) {
        whole(0)
    } else {
        p.config.max_rpm.times(p.effective_duty.over(whole(100)))
    }
}

impl MockBackend {
    /// A plant at rest.
    pub fn new(config: PlantConfig) -> (r: MockBackend)
        ensures
            r@ == at_rest(config),
            r.log() == Seq::<Event>::empty(),
    {
        let zero = Scalar::whole(0);
        let mut pipeline: VecDeque<Scalar> = VecDeque::new();
        let n: usize = config.transport_delay_ticks;
        for i in 0..n
            invariant
                n == config.transport_delay_ticks,
                zero == whole(0),
                pipeline@ == Seq::new(i as nat, |k: int| whole(0)),
        {
            pipeline.push_back(zero);
            assert(pipeline@ =~= Seq::new((i + 1) as nat, |k: int| whole(0)));
        }
        let r = MockBackend {
            config,
            temp_c: config.ambient_c,
            load: zero,
            commanded_duty: zero,
            pipeline,
            effective_duty: zero,
            acquired: false,
            released: false,
            log: Ghost(Seq::empty()),
            read: Ghost(Ok(Map::empty())),
        };
        assert(r@ =~= at_rest(config));
        r
    }

    /// Sets the simulated workload, from 0 to 1.
    pub fn set_load(&mut self, load: Scalar)
        ensures
            final(self)@ == (PlantView { load: load.confined(whole(0), whole(1)), ..old(self)@ }),
            final(self).log() == old(self).log(),
    {
        self.load = load.clamp(Scalar::whole(0), Scalar::whole(1));
    }

    /// Current die temperature.
    pub fn temperature(&self) -> (r: Scalar)
        ensures
            r == self@.temp_c,
    {
        self.temp_c
    }

    /// Duty currently affecting the plant.
    pub fn effective_duty(&self) -> (r: Scalar)
        ensures
            r == self@.effective_duty,
    {
        self.effective_duty
    }

    /// Advances the simulation by one tick: once per control tick, after duties were
    /// written.
    pub fn step(&mut self)
        ensures
            final(self)@ == stepped(old(self)@),
            final(self).log() == old(self).log(),
    {
        let ghost before = self@;
        self.pipeline.push_back(self.commanded_duty);
        let felt = self.pipeline[0];
        self.pipeline.pop_front();
        self.effective_duty = felt;
        let above = self.temp_c.sub(self.config.ambient_c);
        // A stalled fan provides no forced convection regardless of commanded duty.
        let moving = if felt.lt(self.config.stall_duty) {
            Scalar::whole(0)
        } else {
            felt.div(Scalar::whole(100))
        };
        let heating = self.config.heat_rate_c_per_s.mul(self.load);
        let cooling = self.config.passive_coeff.add(self.config.cooling_coeff.mul(moving)).mul(
            above,
        );
        self.temp_c = self.temp_c.add(heating.sub(cooling).mul(self.config.tick_seconds));
        if self.temp_c.lt(self.config.ambient_c) {
            self.temp_c = self.config.ambient_c;
        }
        assert(self@ =~= stepped(before));
    }

    fn rpm(&self) -> (r: Scalar)
        ensures
            r == speed(self@),
    {
        if self.effective_duty.lt(self.config.stall_duty) {
            Scalar::whole(0)
        } else {
            self.config.max_rpm.mul(self.effective_duty.div(Scalar::whole(100)))
        }
    }
}

impl Default for MockBackend {
    fn default() -> (r: MockBackend)
        ensures
            r@ == at_rest(desktop()),
            r.log() == Seq::<Event>::empty(),
    {
        MockBackend::new(PlantConfig::default())
    }
}

impl OutputChannel for MockBackend {
    closed spec fn log(&self) -> Seq<Event> {
        self.log@
    }

    open spec fn restores(&self) -> bool {
        true
    }

    closed spec fn last_read(&self) -> Result<Map<Text, Scalar>, HalError> {
        self.read@
    }

    fn channels(&self) -> (r: Result<Vec<ChannelInfo>, HalError>)
        ensures
            r matches Ok(list) && list@.len() == 1 && list@[0].id@ == MockBackend::CHANNEL@
                && (list@[0].tachometer matches Some(t) && t@ == MockBackend::RPM_SENSOR@)
                && list@[0].min_reliable_duty == Some(self@.config.stall_duty),
    {
        Ok(
            vec![
                ChannelInfo {
                    id: MockBackend::CHANNEL.to_owned(),
                    label: "Simulated fan header".to_owned(),
                    tachometer: Some(MockBackend::RPM_SENSOR.to_owned()),
                    min_reliable_duty: Some(self.config.stall_duty),
                },
            ],
        )
    }

    fn acquire(&mut self, channel: &ChannelId) -> (r: Result<(), HalError>)
        ensures
            match r {
                Ok(_) => channel@ == MockBackend::CHANNEL@ && final(self)@ == (PlantView {
                    acquired: true,
                    released: false,
                    ..old(self)@
                }),
                Err(e) => channel@ != MockBackend::CHANNEL@ && final(self)@ == old(self)@
                    && (e matches HalError::UnknownChannel(c) && c@ == channel@),
            },
    {
        let known = same(channel.as_str(), MockBackend::CHANNEL);
        proof {
            self.log@ = self.log@.push(Event::Acquire { channel: channel@, ok: known });
        }
        if !known {
            return Err(HalError::UnknownChannel(channel.clone()));
        }
        self.acquired = true;
        self.released = false;
        Ok(())
    }

    fn set_duty(&mut self, channel: &ChannelId, percent: Scalar) -> (r: Result<(), HalError>)
        ensures
            match r {
                Ok(_) => channel@ == MockBackend::CHANNEL@ && old(self)@.acquired && final(self)@ == (PlantView {
                    commanded_duty: percent.confined(whole(0), whole(100)),
                    ..old(self)@
                }),
                Err(HalError::UnknownChannel(c)) => channel@ != MockBackend::CHANNEL@ && c@ == channel@
                    && final(self)@ == old(self)@,
                Err(HalError::NotAcquired(c)) => channel@ == MockBackend::CHANNEL@ && !old(self)@.acquired && c@
                    == channel@ && final(self)@ == old(self)@,
                Err(_) => false,
            },
    {
        let known = same(channel.as_str(), MockBackend::CHANNEL);
        proof {
            self.log@ = self.log@.push(
                Event::SetDuty {
                    channel: channel@,
                    duty: percent,
                    ok: known && self.acquired,
                },
            );
        }
        if !known {
            return Err(HalError::UnknownChannel(channel.clone()));
        }
        if !self.acquired {
            return Err(HalError::NotAcquired(channel.clone()));
        }
        self.commanded_duty = percent.clamp(Scalar::whole(0), Scalar::whole(100));
        Ok(())
    }

    fn release(&mut self, channel: &ChannelId) -> (r: Result<(), HalError>)
        ensures
            match r {
                Ok(_) => channel@ == MockBackend::CHANNEL@ && final(self)@ == (PlantView {
                    acquired: false,
                    released: true,
                    ..old(self)@
                }),
                Err(e) => channel@ != MockBackend::CHANNEL@ && final(self)@ == old(self)@
                    && (e matches HalError::UnknownChannel(c) && c@ == channel@),
            },
    {
        let known = same(channel.as_str(), MockBackend::CHANNEL);
        proof {
            self.log@ = self.log@.push(Event::Release { channel: channel@, ok: known });
        }
        if !known {
            return Err(HalError::UnknownChannel(channel.clone()));
        }
        self.acquired = false;
        self.released = true;
        Ok(())
    }

    fn can_restore_firmware_control(&self) -> (r: bool) {
        true
    }

    fn hand_back_to_firmware(&mut self, channel: &ChannelId) -> (r: Result<(), HalError>)
        ensures
            r matches Err(HalError::Unavailable(s)) && s@ == "this backend cannot hand "@ + channel@
                + " back to firmware control"@,
            final(self)@ == old(self)@,
    {
        let answer = Err(cannot_hand_back(channel));
        proof {
            self.log@ = self.log@.push(Event::HandBack { channel: channel@, answer });
        }
        answer
    }
}

impl SensorSource for MockBackend {
    fn sensors(&self) -> (r: Result<Vec<SensorInfo>, HalError>)
        ensures
            r matches Ok(list) && list@.len() == 2 && list@[0].id@ == MockBackend::TEMP_SENSOR@ && list@[0].kind
                == SensorKind::Temperature && list@[1].id@ == MockBackend::RPM_SENSOR@ && list@[1].kind
                == SensorKind::Fan,
    {
        Ok(
            vec![
                SensorInfo {
                    id: MockBackend::TEMP_SENSOR.to_owned(),
                    label: "Simulated CPU".to_owned(),
                    kind: SensorKind::Temperature,
                },
                SensorInfo {
                    id: MockBackend::RPM_SENSOR.to_owned(),
                    label: "Simulated fan".to_owned(),
                    kind: SensorKind::Fan,
                },
            ],
        )
    }

    fn read_all(&mut self) -> (r: Result<OrdMap<SensorId, Scalar>, HalError>)
        ensures
            r matches Ok(m) && m@ == Map::<Text, Scalar>::empty().insert(
                MockBackend::TEMP_SENSOR@,
                old(self)@.temp_c,
            ).insert(MockBackend::RPM_SENSOR@, speed(old(self)@)),
            final(self)@ == old(self)@,
    {
        let mut m: OrdMap<SensorId, Scalar> = OrdMap::new();
        m.insert(MockBackend::TEMP_SENSOR.to_owned(), self.temp_c);
        m.insert(MockBackend::RPM_SENSOR.to_owned(), self.rpm());
        proof {
            self.read@ = Ok(m@);
        }
        Ok(m)
    }
}

impl Backend for MockBackend {
    fn name(&self) -> (r: String)
        ensures
            r@ == "Simulated thermal plant"@,
    {
        "Simulated thermal plant".to_owned()
    }
}

/// A stalled fan cools no better than a stopped one, and reads as stopped.
pub proof fn a_stalled_fan_is_a_stopped_fan(p: PlantView, q: PlantView)
    requires
        p.config == q.config,
        p.temp_c == q.temp_c,
        p.load == q.load,
        stepped(p).effective_duty.below(p.config.stall_duty),
        stepped(q).effective_duty.below(q.config.stall_duty),
    ensures
        stepped(p).temp_c == stepped(q).temp_c,
        speed(stepped(p)) == whole(0),
{
}

} // verus!
