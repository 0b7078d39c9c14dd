//! Incremental reading of the memory counters of a line-oriented status text.
pub mod cpu;
pub mod mem;
pub mod text;
