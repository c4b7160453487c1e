//! Fan control over a graph whose connections are typed by physical quantity.
pub mod autostart;
pub mod autostart_guarantees;
pub mod chip_guarantees;
pub mod contention;
pub mod contention_guarantees;
pub mod curve_guarantees;
pub mod engine;
pub mod engine_guarantees;
pub mod eval;
pub mod fancontrol;
pub mod graph;
pub mod guarantees;
pub mod hal;
pub mod import;
pub mod import_behaviour;
pub mod import_guarantees;
pub mod import_reading;
pub mod import_wiring;
pub mod infer;
pub mod ipc;
pub mod known;
pub mod lpc;
pub mod measurement_guarantees;
pub mod mock;
pub mod mock_guarantees;
pub mod nct6775;
pub mod node;
pub mod node_behaviour;
pub mod node_guarantees;
pub mod offload;
pub mod offload_guarantees;
pub mod offload_rounding;
pub mod order;
pub mod ordmap;
pub mod params;
pub mod pawnio;
pub mod plan;
pub mod policy;
pub mod policy_guarantees;
pub mod preset_behaviour;
pub mod preset_guarantees;
pub mod presets;
pub mod profile;
pub mod rounding;
pub mod rpc;
pub mod runner;
pub mod scalar;
pub mod scalar_guarantees;
pub mod smoothing;
pub mod startup_reading;
pub mod steady;
pub mod superio;
pub mod text;
pub mod tick;
pub mod units;
pub mod validate;
pub mod validation_guarantees;
pub mod wires;
pub mod wiring;
