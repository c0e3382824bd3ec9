//! Verified core of a software KVM: one keyboard and pointer on a server host
//! drive the desktops of networked client hosts that are joined into a single
//! plane of displays.

pub mod display;
pub mod graph;
pub mod comm;
pub mod router;
pub mod codec;
pub mod client;
pub mod server;
