//! Fire-sensor network detection core: spatial clustering of sensor
//! readings, per-cluster aggregation, alarm classification, severity
//! ranking and alert-payload assembly.
//!
//! Readings are carried as fixed-point integers in centi-units
//! (hundredths): a temperature of `70.25` degrees is stored as `7025`.
//! The sensor acquisition layer yields raw integer counts, so this
//! representation is exact; cluster averages are kept as exact
//! rationals (total, count) rather than rounded quotients.

pub mod cluster;
pub mod communication;
pub mod fire_detection;
