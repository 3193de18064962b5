//! A queue of shell commands dispatched onto free accelerator devices.
//!
//! The library holds the scheduling core: the job state machine, the
//! queue-file codec, the parsers for the external probe outputs, and the
//! pure builders for session names, environment overlays and wrapped
//! commands.  Everything that touches the operating system (spawning
//! sessions, probing devices, reading and writing files) lives outside the
//! library and hands it plain values.

pub mod archive;
pub mod config;
pub mod events;
pub mod device;
pub mod ids;
pub mod job;
pub mod ops;
pub mod recover;
pub mod sched;
pub mod session;
pub mod store;
pub mod text;
