//! A verified model of a local GPU datacenter: topology and lifecycle of
//! simulations, routing with switch-only transit (a lowest-cost search by
//! latency, then hop count, that finds a route whenever one exists), a software
//! verbs fabric, the guest network plan of the native fabric, and the validators
//! that guard native backends.
pub mod text;
pub mod keyed;
pub mod model;
pub mod limits;
pub mod outside;
pub mod api;
pub mod fabric;
pub mod topology;
pub mod collective;
pub mod ops;
pub mod instr;
pub mod checkpoint;
pub mod lifecycle;
pub mod access;
pub mod breakout;
pub mod manifest;
pub mod netbox;
pub mod command;
pub mod deepops;
pub mod infiniband;
pub mod mokka;
pub mod incus;
pub mod worker;
pub mod evidence;
pub mod bounded_log;
pub mod native_fabric;
pub mod linux;
