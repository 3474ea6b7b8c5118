//! A minimal init system: unit files and their start order, the supervisor's
//! state machine, the control protocol, signal handling and early mounts, and
//! a converter for runit services.
//!
//! What is here decides, over plain values; the one thing it does to the world
//! is to block signals. Processes, sockets, clocks and files belong to the
//! program around the library.

pub mod boot;
pub mod client;
pub mod client_laws;
pub mod config;
pub mod exit_laws;
pub mod import_laws;
pub mod model;
pub mod mounts;
pub mod order;
pub mod order_laws;
pub mod proto;
pub mod reaper;
pub mod registry;
pub mod request_laws;
pub mod runit;
pub mod runit_laws;
pub mod sort;
pub mod supervisor;
pub mod supervisor_laws;
pub mod text;
pub mod text_laws;
pub mod unit_laws;
