//! The simulated plant: a lumped thermal mass, a fan with a stall point, and a delay.
use openfan::hal::{HalError, OutputChannel, SensorSource};
use openfan::mock::{MockBackend, PlantConfig};
use openfan::scalar::Scalar;

fn s(x: f64) -> Scalar {
    Scalar::from_bits(x.to_bits())
}

fn num(x: Scalar) -> f64 {
    f64::from_bits(x.to_bits())
}

fn settle(plant: &mut MockBackend, duty: f64, ticks: usize) {
    plant.acquire(&MockBackend::CHANNEL.to_owned()).unwrap();
    plant.set_duty(&MockBackend::CHANNEL.to_owned(), s(duty)).unwrap();
    for _ in 0..ticks {
        plant.step();
    }
}

#[test]
fn load_heats_the_plant_and_cooling_holds_it_down() {
    let mut hot = MockBackend::default();
    hot.set_load(s(1.0));
    settle(&mut hot, 0.0, 600);

    let mut cooled = MockBackend::default();
    cooled.set_load(s(1.0));
    settle(&mut cooled, 100.0, 600);

    assert!(num(hot.temperature()) > num(cooled.temperature()) + 20.0,
        "full duty must be clearly cooler: {} vs {}", num(hot.temperature()), num(cooled.temperature()));
}

#[test]
fn an_idle_plant_decays_to_ambient() {
    let mut plant = MockBackend::default();
    plant.set_load(s(1.0));
    settle(&mut plant, 50.0, 300);
    assert!(num(plant.temperature()) > num(PlantConfig::default().ambient_c) + 5.0);

    plant.set_load(s(0.0));
    for _ in 0..3000 {
        plant.step();
    }
    assert!((num(plant.temperature()) - num(PlantConfig::default().ambient_c)).abs() < 1.0);
}

#[test]
fn a_stalled_fan_reads_zero_rpm_and_provides_no_cooling() {
    let cfg = PlantConfig::default();
    let mut plant = MockBackend::new(cfg);
    plant.set_load(s(1.0));
    // Just below the stall threshold: commanded, but not actually moving air.
    settle(&mut plant, num(cfg.stall_duty) - 1.0, 400);

    assert_eq!(*plant.read_all().unwrap().get(&MockBackend::RPM_SENSOR.to_owned()).unwrap(), s(0.0));

    let mut off = MockBackend::new(cfg);
    off.set_load(s(1.0));
    settle(&mut off, 0.0, 400);
    assert!((num(plant.temperature()) - num(off.temperature())).abs() < 0.5,
        "a stalled fan must cool no better than a stopped one");
}

#[test]
fn commanded_duty_takes_the_transport_delay_to_reach_the_plant() {
    let cfg = PlantConfig { transport_delay_ticks: 5, ..Default::default() };
    let mut plant = MockBackend::new(cfg);
    plant.acquire(&MockBackend::CHANNEL.to_owned()).unwrap();
    plant.set_duty(&MockBackend::CHANNEL.to_owned(), s(100.0)).unwrap();

    for _ in 0..5 {
        plant.step();
        assert_eq!(plant.effective_duty(), s(0.0), "duty must not arrive early");
    }
    plant.step();
    assert_eq!(plant.effective_duty(), s(100.0));
}

#[test]
fn driving_an_unacquired_channel_is_refused() {
    let mut plant = MockBackend::default();
    let err = plant.set_duty(&MockBackend::CHANNEL.to_owned(), s(50.0)).unwrap_err();
    assert!(matches!(err, HalError::NotAcquired(_)));
}

#[test]
fn release_is_observable() {
    let mut plant = MockBackend::default();
    plant.acquire(&MockBackend::CHANNEL.to_owned()).unwrap();
    assert!(!plant.released);
    plant.release(&MockBackend::CHANNEL.to_owned()).unwrap();
    assert!(plant.released, "tests need to see that the dying breath ran");
}
