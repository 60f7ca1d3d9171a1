//! TCP ingress policy and TCP events.

use crate::config::Protections;
use crate::event::{ipv4_octets, Timestamp};
use crate::raw::Tcp4EventRaw;
use vstd::prelude::*;

verus! {

/// A TCP connection observed on ingress.
///
/// Only the ACK completing a handshake is reported, so each event
/// stands for one established connection.
#[derive(Debug, Clone, Copy, PartialEq, Eq)]
pub struct Tcp4Event {
    pub src: [u8; 4],
    pub dst: [u8; 4],
    pub src_port: u16,
    pub dst_port: u16,
    pub timestamp: Timestamp,
}

impl Tcp4Event {
    pub fn new(src: [u8; 4], dst: [u8; 4], src_port: u16, dst_port: u16, timestamp: Timestamp) -> (r: Self)
        ensures
            r == (Tcp4Event { src, dst, src_port, dst_port, timestamp }),
    {
        Tcp4Event { src, dst, src_port, dst_port, timestamp }
    }

    /// The event carried by a raw ring-buffer record, its boot-relative
    /// timestamp moved to wall-clock time using the boot time
    /// `boot_secs` (seconds since the UNIX epoch).
    pub fn from_raw(raw: Tcp4EventRaw, boot_secs: u64) -> (r: Self)
        ensures
            r.src@ == crate::event::spec_octets_of(raw.src),
            r.dst@ == crate::event::spec_octets_of(raw.dst),
            r.src_port == raw.src_port,
            r.dst_port == raw.dst_port,
            r.timestamp == crate::event::spec_wall_clock(boot_secs, raw.timestamp),
    {
        Tcp4Event {
            src: ipv4_octets(raw.src),
            dst: ipv4_octets(raw.dst),
            src_port: raw.src_port,
            dst_port: raw.dst_port,
            timestamp: Timestamp::after_boot(boot_secs, raw.timestamp),
        }
    }
}

/// Default of `allow_outgoing` when a configuration omits it.
pub fn default_true() -> (r: bool)
    ensures
        r,
{
    true
}

/// A single rule entry inside a TCP ingress `allow_list`.
///
/// `src_ip_ranges` can be empty to match any source address.
#[derive(Debug)]
pub struct Tcp4IngressRule {
    pub name: String,
    pub src_ip_ranges: Vec<String>,
    pub port: u16,
}

pub struct Tcp4IngressRuleView {
    pub name: Seq<char>,
    pub src_ip_ranges: Seq<Seq<char>>,
    pub port: u16,
}

impl View for Tcp4IngressRule {
    type V = Tcp4IngressRuleView;

    open spec fn view(&self) -> Tcp4IngressRuleView {
        Tcp4IngressRuleView {
            name: self.name@,
            src_ip_ranges: self.src_ip_ranges@.map_values(|s: String| s@),
            port: self.port,
        }
    }
}

impl Clone for Tcp4IngressRule {
    fn clone(&self) -> (r: Self)
        ensures
            r@ == self@,
    {
        let r = Tcp4IngressRule {
            name: self.name.clone(),
            src_ip_ranges: self.src_ip_ranges.clone(),
            port: self.port,
        };
        assert(r.src_ip_ranges@.map_values(|s: String| s@) =~= self.src_ip_ranges@.map_values(
            |s: String| s@,
        ));
        r
    }
}

/// Policy for TCP ingress on a single interface.
#[derive(Debug)]
pub struct TcpIngressPolicy {
    /// TCP ACK flood protection settings.
    pub protections: Protections,
    pub allow_list: Vec<Tcp4IngressRule>,
    /// When `true`, TCP packets that are not pure SYNs (i.e. not
    /// opening a new connection) are passed unconditionally, so the
    /// local host can open outbound connections.
    pub allow_outgoing: bool,
}

pub struct TcpIngressPolicyView {
    pub protections: Protections,
    pub allow_list: Seq<Tcp4IngressRuleView>,
    pub allow_outgoing: bool,
}

impl View for TcpIngressPolicy {
    type V = TcpIngressPolicyView;

    open spec fn view(&self) -> TcpIngressPolicyView {
        TcpIngressPolicyView {
            protections: self.protections,
            allow_list: self.allow_list@.map_values(|r: Tcp4IngressRule| r@),
            allow_outgoing: self.allow_outgoing,
        }
    }
}

impl Clone for TcpIngressPolicy {
    fn clone(&self) -> (r: Self)
        ensures
            r@ == self@,
    {
        let r = TcpIngressPolicy {
            protections: self.protections,
            allow_list: self.allow_list.clone(),
            allow_outgoing: self.allow_outgoing,
        };
        assert(r.allow_list@.map_values(|x: Tcp4IngressRule| x@) =~= self.allow_list@.map_values(
            |x: Tcp4IngressRule| x@,
        ));
        r
    }
}

} // verus!
