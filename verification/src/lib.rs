//! Userspace and data-path policy logic of efense, a Linux ingress
//! firewall driven by eBPF/XDP.
//!
//! The crate holds the configuration model, its merge rules, the IPv4
//! CIDR text grammar, the contents of the kernel maps computed from a
//! configuration, the XDP decision taken on each packet from those maps,
//! and what that decision guarantees.

pub mod policy;
pub mod text;
pub mod ip;
pub mod config;
pub mod event;
pub mod raw;
pub mod tcp;
pub mod udp;
pub mod error;
pub mod pin;
pub mod plan;
pub mod store;
pub mod enforce;
pub mod protect;
pub mod monitor;
pub mod properties;
