//! A command-driven periodic sampling controller.
//!
//! The library holds the verified core of the controller: parsing of
//! inbound `measure:<count>,<interval>` commands, drift-compensated
//! interval pacing of a finite run of ticks, fixed-point conversion of
//! raw sensor readings to temperatures, rendering of the published
//! result records, the FIFO orchestration of queued commands, and the
//! decoding of the build configuration. The surrounding program supplies
//! what cannot be verified — the network, the sensor hardware, clocks
//! and sleeps — and feeds plain values in and out of this crate.

mod adc;
mod command;
mod interval_iterator;
mod kconfig;
mod orchestrator;
mod record;

pub use adc::convert_temperature;
pub use adc::isqrt;
pub use command::Command;
pub use command::CommandField;
pub use command::ParseError;
pub use interval_iterator::IntervalIter;
pub use interval_iterator::IntervalIterator;
pub use kconfig::ProjBuild;
pub use orchestrator::Orchestrator;
pub use record::format_record;
pub use record::make_record;
