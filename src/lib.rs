//! Byte-range I/O request optimisation and slot-tracked in-flight operations.
pub mod byte_range;
pub mod coverage;
pub mod grib;
pub mod groups;
pub mod operation;
pub mod optimise;
pub mod pipeline;
pub mod plan;
pub mod primes;
pub mod tracker;
