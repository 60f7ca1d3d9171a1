//! UDP ingress policy and UDP events.

use crate::event::{ipv4_octets, Timestamp};
use crate::policy;
use crate::raw::Udp4EventRaw;
use vstd::prelude::*;

verus! {

/// A single rule entry inside a UDP ingress `allow_list`.
///
/// `src_ip_ranges` can be empty to match any source address. A missing
/// `src_port` is treated as "any source port" for the matched prefix.
#[derive(Debug)]
pub struct Udp4IngressRule {
    pub name: String,
    pub src_ip_ranges: Vec<String>,
    pub src_port: Option<u16>,
}

pub struct Udp4IngressRuleView {
    pub name: Seq<char>,
    pub src_ip_ranges: Seq<Seq<char>>,
    pub src_port: Option<u16>,
}

impl View for Udp4IngressRule {
    type V = Udp4IngressRuleView;

    open spec fn view(&self) -> Udp4IngressRuleView {
        Udp4IngressRuleView {
            name: self.name@,
            src_ip_ranges: self.src_ip_ranges@.map_values(|s: String| s@),
            src_port: self.src_port,
        }
    }
}

impl Clone for Udp4IngressRule {
    fn clone(&self) -> (r: Self)
        ensures
            r@ == self@,
    {
        let r = Udp4IngressRule {
            name: self.name.clone(),
            src_ip_ranges: self.src_ip_ranges.clone(),
            src_port: self.src_port,
        };
        assert(r.src_ip_ranges@.map_values(|s: String| s@) =~= self.src_ip_ranges@.map_values(
            |s: String| s@,
        ));
        r
    }
}

/// Policy for UDP ingress on a single interface.
#[derive(Debug)]
pub struct UdpIngressPolicy {
    pub allow_list: Vec<Udp4IngressRule>,
}

pub struct UdpIngressPolicyView {
    pub allow_list: Seq<Udp4IngressRuleView>,
}

impl View for UdpIngressPolicy {
    type V = UdpIngressPolicyView;

    open spec fn view(&self) -> UdpIngressPolicyView {
        UdpIngressPolicyView { allow_list: self.allow_list@.map_values(|r: Udp4IngressRule| r@) }
    }
}

impl Clone for UdpIngressPolicy {
    fn clone(&self) -> (r: Self)
        ensures
            r@ == self@,
    {
        let r = UdpIngressPolicy { allow_list: self.allow_list.clone() };
        assert(r.allow_list@.map_values(|x: Udp4IngressRule| x@) =~= self.allow_list@.map_values(
            |x: Udp4IngressRule| x@,
        ));
        r
    }
}

/// A UDP packet observed on ingress.
#[derive(Debug, Clone, Copy, PartialEq, Eq)]
pub struct Udp4Event {
    pub src: [u8; 4],
    pub dst: [u8; 4],
    pub src_port: u16,
    pub dst_port: u16,
    pub timestamp: Timestamp,
}

impl Udp4Event {
    pub fn new(src: [u8; 4], dst: [u8; 4], src_port: u16, dst_port: u16, timestamp: Timestamp) -> (r: Self)
        ensures
            r == (Udp4Event { src, dst, src_port, dst_port, timestamp }),
    {
        Udp4Event { src, dst, src_port, dst_port, timestamp }
    }

    /// The event carried by a raw ring-buffer record, its boot-relative
    /// timestamp moved to wall-clock time using the boot time
    /// `boot_secs` (seconds since the UNIX epoch).
    pub fn from_raw(raw: Udp4EventRaw, boot_secs: u64) -> (r: Self)
        ensures
            r.src@ == crate::event::spec_octets_of(raw.src),
            r.dst@ == crate::event::spec_octets_of(raw.dst),
            r.src_port == raw.src_port,
            r.dst_port == raw.dst_port,
            r.timestamp == crate::event::spec_wall_clock(boot_secs, raw.timestamp),
    {
        Udp4Event {
            src: ipv4_octets(raw.src),
            dst: ipv4_octets(raw.dst),
            src_port: raw.src_port,
            dst_port: raw.dst_port,
            timestamp: Timestamp::after_boot(boot_secs, raw.timestamp),
        }
    }
}

/// Userspace wrapper over [`policy::PrefixPort`] used as a kernel map
/// key.
#[derive(Copy, Clone, Debug, PartialEq, Eq, Hash)]
pub struct PrefixPortPod(pub policy::PrefixPort);

impl From<policy::PrefixPort> for PrefixPortPod {
    fn from(v: policy::PrefixPort) -> (r: Self) {
        PrefixPortPod(v)
    }
}

impl vstd::std_specs::convert::FromSpecImpl<policy::PrefixPort> for PrefixPortPod {
    open spec fn obeys_from_spec() -> bool {
        true
    }

    open spec fn from_spec(v: policy::PrefixPort) -> Self {
        PrefixPortPod(v)
    }
}

impl From<PrefixPortPod> for policy::PrefixPort {
    fn from(v: PrefixPortPod) -> (r: Self) {
        v.0
    }
}

impl vstd::std_specs::convert::FromSpecImpl<PrefixPortPod> for policy::PrefixPort {
    open spec fn obeys_from_spec() -> bool {
        true
    }

    open spec fn from_spec(v: PrefixPortPod) -> Self {
        v.0
    }
}

} // verus!
