//! NHIP: the packet formats, address rules, routing and control logic of the
//! Nested Hierarchical Internet Protocol, with machine-checked contracts.
pub mod addr;
pub mod bytes;
pub mod cfg;
pub mod ctl;
pub mod daemon;
pub mod forward;
pub mod header;
pub mod iface;
pub mod label;
pub mod nharp;
pub mod nharp_ctl;
pub mod nhipctl;
pub mod nhipping;
pub mod number;
pub mod socket;
pub mod text;
pub mod xdp;
